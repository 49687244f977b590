use vstd::prelude::*;
use std::collections::HashMap;
use crate::json::{copy_items, copy_fields, Json, JsonV, Fields, fields_view, items_view, json_view, lookup, upsert, set_field, owned, lemma_fields_view, lemma_items_view, lemma_lookup_upsert, json_eq};
use crate::kv::{has_type, typed_progress, lemma_bodies_typed, KV, Progress, ProgressV, read_body, write_body, cas_body, read_outcome, write_succeeded, read_result, write_result};
use crate::log::{offset_key, offsets_view, keys_view, read_open, commit_seek, committed_open, Log, Append, AppendV, AppendPhase, LogRead, LogReadV, Commit, CommitV, ReadCommitted, ReadCommittedV, append_step, read_step, commit_step, committed_step, lemma_append_step_typed, lemma_read_typed, lemma_committed_typed, lemma_commit_seek_typed, lemma_commit_step_typed};
use crate::message::{Message, MessageV, MessageType, Envelope, EnvelopeV, envelopes_view, Expect, body_value, rpc_error};
use crate::text::{decimal, push_decimal, is_digit, lemma_decimal_digits, lemma_decimal_injective};

verus! {

broadcast use vstd::std_specs::hash::group_hash_axioms;

/// Why a request to another node failed.
#[derive(Debug, PartialEq)]
pub enum RpcError {
    /// The reply reported this error code and text.
    Rpc(u64, String),
    /// The reply lacks a field that it should hold.
    Body(crate::message::BodyError),
}

/// The text of a request's failure: `Rpc error: code=<code>, text=<text>` for an
/// error reply, the body error's text for a reply that lacks a field.
pub open spec fn rpc_error_text(e: RpcError) -> Seq<char> {
    match e {
        RpcError::Rpc(c, t) => "Rpc error: code="@ + decimal(c as nat) + ", text="@ + t@,
        RpcError::Body(b) => crate::message::error_text(crate::message::body_error_view(b)),
    }
}

impl RpcError {
    /// The text of the failure: see [`rpc_error_text`].
    pub fn text(&self) -> (r: String)
        ensures
            r@ == rpc_error_text(*self),
    {
        match self {
            RpcError::Rpc(c, t) => {
                let mut s = owned("Rpc error: code=");
                push_decimal(&mut s, *c);
                s.append(", text=");
                s.append(t.as_str());
                s
            },
            RpcError::Body(b) => b.text(),
        }
    }
}

/// The workload that the node serves, which decides how it answers `read`.
#[derive(Debug, PartialEq, Eq, Structural, Clone, Copy)]
pub enum Workload {
    /// Reads answer with the broadcast messages seen.
    Broadcast,
    /// Reads answer with the value of the shared counter.
    GCounter,
}

/// The workload that the `WORKLOAD` setting names: the grow-only counter for
/// `g-counter`, and broadcast for anything else or no setting.
pub open spec fn workload_of(setting: Option<Seq<char>>) -> Workload {
    if setting == Some("g-counter"@) {
        Workload::GCounter
    } else {
        Workload::Broadcast
    }
}

impl Workload {
    /// The workload that the `WORKLOAD` setting names: see [`workload_of`].
    pub fn from_setting(setting: Option<&str>) -> (r: Workload)
        ensures
            r == workload_of(
                match setting {
                    Some(s) => Some(s@),
                    None => None,
                },
            ),
            setting is None ==> r == Workload::Broadcast,
            setting matches Some(s) ==> (r == Workload::GCounter <==> s@ == "g-counter"@),
    {
        match setting {
            Some(s) => if crate::text::str_eq(s, "g-counter") {
                Workload::GCounter
            } else {
                Workload::Broadcast
            },
            None => Workload::Broadcast,
        }
    }
}

/// The key of the shared counter in the sequentially consistent store.
pub open spec fn counter_key() -> Seq<char> {
    "g-counter-key"@
}

/// The key that a node writes to before it reads the counter.
pub open spec fn sync_key(id: Seq<char>) -> Seq<char> {
    "sync-"@ + id
}

/// A request that the node handles over several replies of a service.
pub enum Task {
    /// A counter read that waits for its write of the sync key.
    CounterSync(Message),
    /// A counter read that waits for the value of the counter.
    CounterRead(Message),
    /// An add of the delta that waits for the value of the counter.
    AddRead(Message, u64),
    /// An add of the delta that waits for its compare-and-swap.
    AddSwap(Message, u64),
    /// A `send` that appends to a log.
    Send(Message, Append),
    /// A `poll` that reads logs.
    Poll(Message, LogRead),
    /// A `commit_offsets` that commits logs.
    Commit(Message, Commit),
    /// A `list_committed_offsets` that searches logs.
    ListCommitted(Message, ReadCommitted),
}

/// A [`Task`] as a mathematical value.
pub enum TaskV {
    CounterSync(MessageV),
    CounterRead(MessageV),
    AddRead(MessageV, u64),
    AddSwap(MessageV, u64),
    Send(MessageV, AppendV),
    Poll(MessageV, LogReadV),
    Commit(MessageV, CommitV),
    ListCommitted(MessageV, ReadCommittedV),
}

impl Task {
    /// The task as a mathematical value.
    pub open spec fn spec_view(&self) -> TaskV {
        match self {
            Task::CounterSync(m) => TaskV::CounterSync(m.spec_view()),
            Task::CounterRead(m) => TaskV::CounterRead(m.spec_view()),
            Task::AddRead(m, d) => TaskV::AddRead(m.spec_view(), *d),
            Task::AddSwap(m, d) => TaskV::AddSwap(m.spec_view(), *d),
            Task::Send(m, a) => TaskV::Send(m.spec_view(), a.spec_view()),
            Task::Poll(m, r) => TaskV::Poll(m.spec_view(), r.spec_view()),
            Task::Commit(m, c) => TaskV::Commit(m.spec_view(), c.spec_view()),
            Task::ListCommitted(m, c) => TaskV::ListCommitted(m.spec_view(), c.spec_view()),
        }
    }
}

/// The node: its identity and neighbours, the broadcast messages it has seen,
/// its counter of message ids, and the tasks that wait for replies, by the id of
/// the request they wait on.
pub struct Node {
    pub id: String,
    pub neighbors: Vec<String>,
    pub messages: Vec<Json>,
    pub msg_id: u64,
    pub workload: Workload,
    pub callbacks: HashMap<u64, Task>,
    /// Whether the node has stopped: it got another message before its `init`,
    /// and waits for that `init` for ever.
    pub halted: bool,
}

/// A [`Node`] as a mathematical value.
pub struct NodeV {
    pub id: Seq<char>,
    pub neighbors: Seq<Seq<char>>,
    pub messages: Seq<JsonV>,
    pub msg_id: u64,
    pub workload: Workload,
    pub callbacks: Map<u64, TaskV>,
    pub halted: bool,
}

/// The waiting tasks as mathematical values.
pub open spec fn callbacks_view(m: Map<u64, Task>) -> Map<u64, TaskV> {
    m.map_values(|t: Task| t.spec_view())
}

impl Node {
    /// The node as a mathematical value.
    pub open spec fn spec_view(&self) -> NodeV {
        NodeV {
            id: self.id@,
            neighbors: Seq::new(self.neighbors@.len(), |i: int| self.neighbors@[i]@),
            messages: items_view(self.messages@),
            msg_id: self.msg_id,
            workload: self.workload,
            callbacks: callbacks_view(self.callbacks@),
            halted: self.halted,
        }
    }

}

/// The next message id of the node, which it then counts on by one.
pub open spec fn next_id(n: NodeV) -> u64 {
    vstd::wrapping::u64_specs::wrapping_add(n.msg_id, 1)
}

/// What sending `body` to `dest` does.
pub open spec fn send_v(n: NodeV, dest: Seq<char>, body: Fields) -> EnvelopeV {
    EnvelopeV { src: n.id, dest, body }
}

/// What a request of `body` to `dest` does: it takes the next message id, which
/// goes into the body, and leaves `task`, if any, waiting on that id.
pub open spec fn rpc_v(n: NodeV, dest: Seq<char>, body: Fields, task: Option<TaskV>) -> (
    NodeV,
    EnvelopeV,
) {
    let id = n.msg_id;
    let callbacks = match task {
        Some(t) => n.callbacks.insert(id, t),
        None => n.callbacks,
    };
    (
        NodeV { msg_id: next_id(n), callbacks, ..n },
        send_v(n, dest, upsert(body, "msg_id"@, JsonV::UInt(id))),
    )
}

/// What replying `body` to `request` sends: the body with `in_reply_to` set to the
/// request's `msg_id` and `type` to the request's type with `_ok`, back to the
/// request's source; nothing when the request has no integer `msg_id`.
pub open spec fn reply_v(n: NodeV, request: MessageV, body: Fields) -> Seq<EnvelopeV> {
    match body_value(request.fields, "msg_id"@, Expect::U64) {
        Err(_) => Seq::empty(),
        Ok(m) => seq![
            send_v(
                n,
                request.src,
                upsert(
                    upsert(body, "in_reply_to"@, m),
                    "type"@,
                    JsonV::Str(request.kind.spec_name() + "_ok"@),
                ),
            ),
        ],
    }
}

/// The neighbours that an `init` names: each string of `items` other than `me`,
/// up to the first item that is no string; and whether every item is a string.
pub open spec fn peers(items: Seq<JsonV>, me: Seq<char>) -> (Seq<Seq<char>>, bool)
    decreases items.len(),
{
    if items.len() == 0 {
        (Seq::empty(), true)
    } else {
        let (p, ok) = peers(items.drop_last(), me);
        if !ok {
            (p, false)
        } else {
            match items.last().as_str() {
                None => (p, false),
                Some(s) => (if s == me { p } else { p.push(s) }, true),
            }
        }
    }
}

/// `init`: a node that has no id yet takes the `node_id` of the body as its id
/// and the other nodes of `node_ids` as its neighbours, and replies; a node that
/// has an id ignores it.
pub open spec fn handle_init(n: NodeV, req: MessageV) -> (NodeV, Seq<EnvelopeV>) {
    if n.id.len() > 0 {
        (n, Seq::empty())
    } else {
        match body_value(req.fields, "node_id"@, Expect::Str) {
            Err(_) => (n, Seq::empty()),
            Ok(idv) => {
                let me = idv.as_str()->0;
                let n1 = NodeV { id: me, ..n };
                match body_value(req.fields, "node_ids"@, Expect::Array) {
                    Err(_) => (n1, Seq::empty()),
                    Ok(arr) => {
                        let (p, ok) = peers(arr.as_array()->0, me);
                        let n2 = NodeV { neighbors: n1.neighbors + p, ..n1 };
                        if ok {
                            (n2, reply_v(n2, req, Seq::empty()))
                        } else {
                            (n2, Seq::empty())
                        }
                    },
                }
            },
        }
    }
}

/// The id that a node with id `node` generates with the message id `m`.
pub open spec fn generated_id(node: Seq<char>, m: u64) -> Seq<char> {
    node + "#"@ + decimal(m as nat)
}

/// `generate`: replies with an id made of the node's id, `#` and a fresh message id.
pub open spec fn handle_generate(n: NodeV, req: MessageV) -> (NodeV, Seq<EnvelopeV>) {
    let n1 = NodeV { msg_id: next_id(n), ..n };
    (n1, reply_v(n1, req, seq![("id"@, JsonV::Str(generated_id(n.id, n.msg_id)))]))
}

/// Generated ids are unique: two of them are equal only when both the node ids
/// and the message ids they were made of are.
pub proof fn lemma_generated_id_injective(a: Seq<char>, m: u64, b: Seq<char>, k: u64)
    requires
        generated_id(a, m) == generated_id(b, k),
    ensures
        a == b,
        m == k,
{
    reveal_strlit("#");
    let s = generated_id(a, m);
    let t = generated_id(b, k);
    lemma_decimal_digits(m as nat);
    lemma_decimal_digits(k as nat);
    let pa: int = a.len() as int;
    let pb: int = b.len() as int;
    assert(s.len() == pa + 1 + decimal(m as nat).len());
    assert(t.len() == pb + 1 + decimal(k as nat).len());
    assert(s[pa] == '#');
    assert(t[pb] == '#');
    if pa < pb {
        assert(s[pb] == decimal(m as nat)[pb - pa - 1]);
        assert(is_digit(decimal(m as nat)[pb - pa - 1]));
        assert(false);
    }
    if pb < pa {
        assert(t[pa] == decimal(k as nat)[pa - pb - 1]);
        assert(is_digit(decimal(k as nat)[pa - pb - 1]));
        assert(false);
    }
    assert(a =~= s.subrange(0, pa));
    assert(b =~= t.subrange(0, pb));
    assert(decimal(m as nat) =~= s.subrange(pa + 1, s.len() as int));
    assert(decimal(k as nat) =~= t.subrange(pb + 1, t.len() as int));
    lemma_decimal_injective(m as nat, k as nat);
}

/// The body of a broadcast of `m` to a neighbour.
pub open spec fn gossip_body(m: JsonV) -> Fields {
    seq![("type"@, JsonV::Str("broadcast"@)), ("message"@, m)]
}

/// Sends `m` to each of `nbs`, in order, but `src`.
pub open spec fn forward(n: NodeV, nbs: Seq<Seq<char>>, src: Seq<char>, m: JsonV) -> (
    NodeV,
    Seq<EnvelopeV>,
)
    decreases nbs.len(),
{
    if nbs.len() == 0 {
        (n, Seq::empty())
    } else {
        let (n1, out) = forward(n, nbs.drop_last(), src, m);
        if nbs.last() == src {
            (n1, out)
        } else {
            let (n2, e) = rpc_v(n1, nbs.last(), gossip_body(m), None);
            (n2, out.push(e))
        }
    }
}

/// Whether `ms` holds a value equal to `m` (see [`json_eq`]).
pub open spec fn seen(ms: Seq<JsonV>, m: JsonV) -> bool {
    exists|i: int| 0 <= i < ms.len() && #[trigger] json_eq(ms[i], m)
}

/// `broadcast`: a message seen before is only acknowledged; a new one is kept,
/// sent on to every neighbour but the sender, and acknowledged.
pub open spec fn handle_broadcast(n: NodeV, req: MessageV) -> (NodeV, Seq<EnvelopeV>) {
    match lookup(req.fields, "message"@) {
        None => (n, Seq::empty()),
        Some(m) => if seen(n.messages, m) {
            (n, reply_v(n, req, Seq::empty()))
        } else {
            let n1 = NodeV { messages: n.messages.push(m), ..n };
            let (n2, out) = forward(n1, n1.neighbors, req.src, m);
            (n2, out + reply_v(n2, req, Seq::empty()))
        },
    }
}

/// A counter read writes a fresh message id under its sync key, so that its read
/// of the counter comes after its own change of the store.
pub open spec fn counter_sync(n: NodeV, req: MessageV) -> (NodeV, Seq<EnvelopeV>) {
    let n1 = NodeV { msg_id: next_id(n), ..n };
    let (n2, e) = rpc_v(
        n1,
        "seq-kv"@,
        write_body(sync_key(n.id), JsonV::UInt(n.msg_id)),
        Some(TaskV::CounterSync(req)),
    );
    (n2, seq![e])
}

/// `read`: under broadcast, replies with the messages seen; under the counter,
/// starts a counter read.
pub open spec fn handle_read(n: NodeV, req: MessageV) -> (NodeV, Seq<EnvelopeV>) {
    match n.workload {
        Workload::Broadcast => (
            n,
            reply_v(n, req, seq![("messages"@, JsonV::Array(n.messages))]),
        ),
        Workload::GCounter => counter_sync(n, req),
    }
}

/// An add reads the counter.
pub open spec fn add_read(n: NodeV, req: MessageV, d: u64) -> (NodeV, Seq<EnvelopeV>) {
    let (n1, e) = rpc_v(n, "seq-kv"@, read_body(counter_key()), Some(TaskV::AddRead(req, d)));
    (n1, seq![e])
}

/// `add`: starts an add of the `delta` of the body to the counter.
pub open spec fn handle_add(n: NodeV, req: MessageV) -> (NodeV, Seq<EnvelopeV>) {
    match body_value(req.fields, "delta"@, Expect::U64) {
        Err(_) => (n, Seq::empty()),
        Ok(d) => add_read(n, req, d.as_u64()->0),
    }
}

/// The request that a task answers.
pub open spec fn task_request(t: TaskV) -> MessageV {
    match t {
        TaskV::CounterSync(m) => m,
        TaskV::CounterRead(m) => m,
        TaskV::AddRead(m, _) => m,
        TaskV::AddSwap(m, _) => m,
        TaskV::Send(m, _) => m,
        TaskV::Poll(m, _) => m,
        TaskV::Commit(m, _) => m,
        TaskV::ListCommitted(m, _) => m,
    }
}

/// The body of the reply of a log task that has finished: the offset of an
/// appended message, the entries read, nothing for a commit, or the last
/// committed offsets.
pub open spec fn task_done_body(t: TaskV) -> Fields {
    match t {
        TaskV::Send(_, a) => seq![
            ("offset"@, JsonV::UInt(
                match a.phase {
                    AppendPhase::Appended(o) => o,
                    _ => 0,
                },
            )),
        ],
        TaskV::Poll(_, r) => seq![("msgs"@, JsonV::Object(r.result))],
        TaskV::ListCommitted(_, c) => seq![("offsets"@, JsonV::Object(c.result))],
        _ => Seq::empty(),
    }
}

/// Drives a log task over its progress: its next request goes out with the task
/// waiting on it; when it has finished, its result is replied to its request;
/// when it has stopped, nothing goes out.
pub open spec fn drive(n: NodeV, task: TaskV, p: ProgressV) -> (NodeV, Seq<EnvelopeV>) {
    match p {
        ProgressV::Call(dest, body) => {
            let (n1, e) = rpc_v(n, dest, body, Some(task));
            (n1, seq![e])
        },
        ProgressV::Finished => (n, reply_v(n, task_request(task), task_done_body(task))),
        ProgressV::Abandoned => (n, Seq::empty()),
    }
}

/// `send`: starts appending the `msg` of the body to the log named by its `key`.
pub open spec fn handle_send(n: NodeV, req: MessageV) -> (NodeV, Seq<EnvelopeV>) {
    match body_value(req.fields, "key"@, Expect::Str) {
        Err(_) => (n, Seq::empty()),
        Ok(k) => match lookup(req.fields, "msg"@) {
            None => (n, Seq::empty()),
            Some(msg) => {
                let key = k.as_str()->0;
                let a = AppendV { key, value: msg, phase: AppendPhase::ReadOffset };
                drive(n, TaskV::Send(req, a), ProgressV::Call("lin-kv"@, read_body(offset_key(key))))
            },
        },
    }
}

/// The logs and offsets of an `offsets` object, when every offset is an integer.
pub open spec fn offsets_from(f: Fields) -> Option<Seq<(Seq<char>, u64)>> {
    if forall|i: int| 0 <= i < f.len() ==> (#[trigger] f[i]).1.as_u64() is Some {
        Some(Seq::new(f.len(), |i: int| (f[i].0, f[i].1.as_u64()->0)))
    } else {
        None
    }
}

/// The names in a `keys` array, when every item is a string.
pub open spec fn keys_from(items: Seq<JsonV>) -> Option<Seq<Seq<char>>> {
    if forall|i: int| 0 <= i < items.len() ==> (#[trigger] items[i]).as_str() is Some {
        Some(Seq::new(items.len(), |i: int| items[i].as_str()->0))
    } else {
        None
    }
}

/// `poll`: starts reading the logs of `offsets`, each from its offset on.
pub open spec fn handle_poll(n: NodeV, req: MessageV) -> (NodeV, Seq<EnvelopeV>) {
    match body_value(req.fields, "offsets"@, Expect::Object) {
        Err(_) => (n, Seq::empty()),
        Ok(o) => match offsets_from(o.as_object()->0) {
            None => (n, Seq::empty()),
            Some(offsets) => {
                let (r, p) = read_open(
                    LogReadV { offsets, index: 0, next: 0, entries: Seq::empty(), result: Seq::empty() },
                    "lin-kv"@,
                );
                drive(n, TaskV::Poll(req, r), p)
            },
        },
    }
}

/// `commit_offsets`: starts committing the logs of `offsets`, each up to and
/// with its offset.
pub open spec fn handle_commit(n: NodeV, req: MessageV) -> (NodeV, Seq<EnvelopeV>) {
    match body_value(req.fields, "offsets"@, Expect::Object) {
        Err(_) => (n, Seq::empty()),
        Ok(o) => match offsets_from(o.as_object()->0) {
            None => (n, Seq::empty()),
            Some(offsets) => {
                let (c, p) = commit_seek(
                    CommitV { offsets, index: 0, next: 0, writing: false },
                    "lin-kv"@,
                );
                drive(n, TaskV::Commit(req, c), p)
            },
        },
    }
}

/// `list_committed_offsets`: starts searching the logs of `keys` for their last
/// committed offsets.
pub open spec fn handle_list_committed(n: NodeV, req: MessageV) -> (NodeV, Seq<EnvelopeV>) {
    match body_value(req.fields, "keys"@, Expect::Array) {
        Err(_) => (n, Seq::empty()),
        Ok(a) => match keys_from(a.as_array()->0) {
            None => (n, Seq::empty()),
            Some(keys) => {
                let (c, p) = committed_open(
                    ReadCommittedV { keys, index: 0, next: 0, last: None, result: Seq::empty() },
                    "lin-kv"@,
                );
                drive(n, TaskV::ListCommitted(req, c), p)
            },
        },
    }
}

/// What a request that is no reply does: the handler of its type runs; a type
/// without a handler is ignored.
pub open spec fn handle(n: NodeV, req: MessageV) -> (NodeV, Seq<EnvelopeV>) {
    match req.kind {
        MessageType::Init => handle_init(n, req),
        MessageType::Echo => (n, reply_v(n, req, req.fields)),
        MessageType::Generate => handle_generate(n, req),
        MessageType::Topology => (n, reply_v(n, req, Seq::empty())),
        MessageType::Broadcast => handle_broadcast(n, req),
        MessageType::Read => handle_read(n, req),
        MessageType::Add => handle_add(n, req),
        MessageType::Send => handle_send(n, req),
        MessageType::Poll => handle_poll(n, req),
        MessageType::CommitOffsets => handle_commit(n, req),
        MessageType::ListCommittedOffsets => handle_list_committed(n, req),
        _ => (n, Seq::empty()),
    }
}

/// The value that a reply to a read of the counter gives: the integer it holds,
/// and zero when it holds none or the read failed.
pub open spec fn counter_value(reply: MessageV) -> u64 {
    match read_outcome(reply.kind, reply.fields) {
        Some(v) => match v.as_u64() {
            Some(x) => x,
            None => 0,
        },
        None => 0,
    }
}

/// What a reply does to the task that waits on it.
pub open spec fn resume(n: NodeV, task: TaskV, reply: MessageV) -> (NodeV, Seq<EnvelopeV>) {
    match task {
        TaskV::CounterSync(req) => if write_succeeded(reply.kind, reply.fields) {
            let (n1, e) = rpc_v(n, "seq-kv"@, read_body(counter_key()), Some(TaskV::CounterRead(req)));
            (n1, seq![e])
        } else {
            counter_sync(n, req)
        },
        TaskV::CounterRead(req) => match read_outcome(reply.kind, reply.fields) {
            Some(_) => (n, reply_v(n, req, seq![("value"@, JsonV::UInt(counter_value(reply)))])),
            None => counter_sync(n, req),
        },
        TaskV::AddRead(req, d) => {
            let value = counter_value(reply);
            let (n1, e) = rpc_v(
                n,
                "seq-kv"@,
                cas_body(
                    counter_key(),
                    JsonV::UInt(value),
                    JsonV::UInt(vstd::wrapping::u64_specs::wrapping_add(value, d)),
                ),
                Some(TaskV::AddSwap(req, d)),
            );
            (n1, seq![e])
        },
        TaskV::AddSwap(req, d) => if write_succeeded(reply.kind, reply.fields) {
            (n, reply_v(n, req, Seq::empty()))
        } else {
            add_read(n, req, d)
        },
        TaskV::Send(req, a) => {
            let (a1, p) = append_step(a, "lin-kv"@, reply.kind, reply.fields);
            drive(n, TaskV::Send(req, a1), p)
        },
        TaskV::Poll(req, r) => {
            let (r1, p) = read_step(r, "lin-kv"@, reply.kind, reply.fields);
            drive(n, TaskV::Poll(req, r1), p)
        },
        TaskV::Commit(req, c) => {
            let (c1, p) = commit_step(c, "lin-kv"@, reply.kind, reply.fields);
            drive(n, TaskV::Commit(req, c1), p)
        },
        TaskV::ListCommitted(req, c) => {
            let (c1, p) = committed_step(c, "lin-kv"@, reply.kind, reply.fields);
            drive(n, TaskV::ListCommitted(req, c1), p)
        },
    }
}

/// What one incoming message does to the node, and what it sends. A halted node
/// does nothing; a node without an id halts on anything but `init`. A message
/// whose body has an integer `in_reply_to` is a reply: the task waiting on it, if
/// any, stops waiting and takes it. Any other message goes to its handler.
pub open spec fn node_step(n: NodeV, m: MessageV) -> (NodeV, Seq<EnvelopeV>) {
    if n.halted {
        (n, Seq::empty())
    } else if n.id.len() == 0 && !(m.kind is Init) {
        (NodeV { halted: true, ..n }, Seq::empty())
    } else {
        match body_value(m.fields, "in_reply_to"@, Expect::U64) {
            Ok(r) => {
                let id = r.as_u64()->0;
                if n.callbacks.contains_key(id) {
                    resume(NodeV { callbacks: n.callbacks.remove(id), ..n }, n.callbacks[id], m)
                } else {
                    (n, Seq::empty())
                }
            },
            Err(_) => handle(n, m),
        }
    }
}

impl Node {
    /// What a request sent and awaited gives once its reply has come: the reply,
    /// or the error that it reports.
    pub fn rpc_sync(reply: Message) -> (r: Result<Message, RpcError>)
        ensures
            rpc_error(reply.body.kind, reply.fields()) is None ==> r == Ok::<Message, RpcError>(reply),
            rpc_error(reply.body.kind, reply.fields()) matches Some((c, t)) ==> (r matches Err(
                RpcError::Rpc(c2, t2),
            ) && c2 == c && t2@ == t),
    {
        match reply.is_rpc_error() {
            Some((code, text)) => Err(RpcError::Rpc(code, text)),
            None => Ok(reply),
        }
    }

    /// A node that has not been initialised yet, serving `workload`.
    pub fn new(workload: Workload) -> (r: Node)
        ensures
            r.spec_view() == (NodeV {
                id: Seq::empty(),
                neighbors: Seq::empty(),
                messages: Seq::empty(),
                msg_id: 0,
                workload,
                callbacks: Map::empty(),
                halted: false,
            }),
    {
        let r = Node {
            id: String::new(),
            neighbors: Vec::new(),
            messages: Vec::new(),
            msg_id: 0,
            workload,
            callbacks: HashMap::new(),
            halted: false,
        };
        proof {
            assert(r.spec_view().neighbors =~= Seq::<Seq<char>>::empty());
            assert(r.spec_view().messages =~= Seq::<JsonV>::empty());
            assert(r.spec_view().callbacks =~= Map::<u64, TaskV>::empty());
        }
        r
    }

    /// Whether the node has learnt its id.
    pub fn is_init(&self) -> (r: bool)
        ensures
            r == (self.id@.len() > 0),
    {
        !self.id.as_str().is_empty()
    }

    /// The next message id, which the node then counts on by one.
    fn msg_id(&mut self) -> (r: u64)
        ensures
            r == old(self).msg_id,
            final(self).spec_view() == (NodeV { msg_id: next_id(old(self).spec_view()), ..old(self).spec_view() }),
    {
        let id = self.msg_id;
        self.msg_id = self.msg_id.wrapping_add(1);
        id
    }

    /// The message that sends `body` to `dest` from this node.
    fn send(&self, dest: String, body: Vec<(String, Json)>) -> (r: Envelope)
        requires
            has_type(fields_view(body@)),
        ensures
            r.spec_view() == send_v(self.spec_view(), dest@, fields_view(body@)),
    {
        Envelope { src: self.id.clone(), dest, body }
    }

    /// Sends a request of `body` to `dest` under the next message id, and leaves
    /// `task`, if any, waiting on that id.
    fn rpc(&mut self, dest: String, body: Vec<(String, Json)>, task: Option<Task>, out: &mut Vec<Envelope>)
        requires
            has_type(fields_view(body@)),
        ensures
            ({
                let (n, e) = rpc_v(
                    old(self).spec_view(),
                    dest@,
                    fields_view(body@),
                    match task {
                        Some(t) => Some(t.spec_view()),
                        None => None,
                    },
                );
                final(self).spec_view() == n && envelopes_view(final(out)@) == envelopes_view(
                    old(out)@,
                ).push(e)
            }),
    {
        let ghost n0 = self.spec_view();
        let id = self.msg_id();
        let mut body = body;
        let ghost b0 = fields_view(body@);
        set_field(&mut body, owned("msg_id"), Json::UInt(id));
        proof {
            reveal_strlit("msg_id");
            reveal_strlit("type");
            assert("msg_id"@[0] != "type"@[0]);
            lemma_lookup_upsert(b0, "msg_id"@, JsonV::UInt(id), "type"@);
        }
        if let Some(t) = task {
            let ghost tv = t.spec_view();
            let ghost cbs = self.callbacks@;
            self.callbacks.insert(id, t);
            proof {
                assert(callbacks_view(self.callbacks@) =~= callbacks_view(cbs).insert(id, tv));
            }
        }
        let e = self.send(dest, body);
        out.push(e);
        proof {
            assert(envelopes_view(out@) =~= envelopes_view(old(out)@).push(e.spec_view()));
        }
    }
}

/// Once an item that is no string has stopped the neighbours of an `init`, later
/// items change nothing.
pub proof fn lemma_peers_stop(items: Seq<JsonV>, me: Seq<char>, k: int)
    requires
        0 <= k <= items.len(),
        !peers(items.take(k), me).1,
    ensures
        peers(items, me) == peers(items.take(k), me),
    decreases items.len(),
{
    if k == items.len() {
        assert(items.take(k) =~= items);
    } else {
        assert(items.drop_last().take(k) =~= items.take(k));
        lemma_peers_stop(items.drop_last(), me, k);
    }
}

/// Steps the neighbours of an `init` over one more item.
pub proof fn lemma_peers_step(items: Seq<JsonV>, me: Seq<char>, i: int)
    requires
        0 <= i < items.len(),
    ensures
        peers(items.take(i + 1), me) == ({
            let (p, ok) = peers(items.take(i), me);
            if !ok {
                (p, false)
            } else {
                match items[i].as_str() {
                    None => (p, false),
                    Some(s) => (if s == me { p } else { p.push(s) }, true),
                }
            }
        }),
{
    assert(items.take(i + 1).drop_last() =~= items.take(i));
}

/// A body without fields.
fn empty_body() -> (r: Vec<(String, Json)>)
    ensures
        fields_view(r@) == Seq::<(Seq<char>, JsonV)>::empty(),
{
    let r: Vec<(String, Json)> = Vec::new();
    assert(fields_view(r@) =~= Seq::<(Seq<char>, JsonV)>::empty());
    r
}

impl Task {
    /// The request that the task answers, and the body of its reply once it has
    /// finished.
    fn into_done(self) -> (r: (Message, Vec<(String, Json)>))
        ensures
            r.0.spec_view() == task_request(self.spec_view()),
            fields_view(r.1@) == task_done_body(self.spec_view()),
    {
        match self {
            Task::Send(m, a) => {
                let offset = match a.phase {
                    AppendPhase::Appended(o) => o,
                    _ => 0,
                };
                let body = vec![(owned("offset"), Json::UInt(offset))];
                proof {
                    lemma_fields_view(body@);
                    assert(fields_view(body@) =~= task_done_body(self.spec_view()));
                }
                (m, body)
            },
            Task::Poll(m, r) => {
                let ghost rv = r.spec_view();
                let body = vec![(owned("msgs"), Json::Object(r.result))];
                proof {
                    lemma_fields_view(body@);
                    assert(fields_view(body@) =~= task_done_body(self.spec_view()));
                }
                (m, body)
            },
            Task::ListCommitted(m, c) => {
                let body = vec![(owned("offsets"), Json::Object(c.result))];
                proof {
                    lemma_fields_view(body@);
                    assert(fields_view(body@) =~= task_done_body(self.spec_view()));
                }
                (m, body)
            },
            Task::CounterSync(m) => (m, empty_body()),
            Task::CounterRead(m) => (m, empty_body()),
            Task::AddRead(m, _) => (m, empty_body()),
            Task::AddSwap(m, _) => (m, empty_body()),
            Task::Commit(m, _) => (m, empty_body()),
        }
    }
}

/// The logs and offsets of an `offsets` object, when every offset is an integer.
fn parse_offsets(fields: &Vec<(String, Json)>) -> (r: Option<Vec<(String, u64)>>)
    ensures
        offsets_from(fields_view(fields@)) matches Some(o) ==> (r matches Some(v) && offsets_view(v@) == o),
        offsets_from(fields_view(fields@)) is None ==> r is None,
{
    let ghost f = fields_view(fields@);
    proof {
        lemma_fields_view(fields@);
    }
    let mut out: Vec<(String, u64)> = Vec::new();
    let n = fields.len();
    let mut i: usize = 0;
    while i < n
        invariant
            n == fields@.len(),
            f == fields_view(fields@),
            f.len() == n,
            forall|j: int| 0 <= j < n ==> #[trigger] f[j] == (fields@[j].0@, json_view(fields@[j].1)),
            0 <= i <= n,
            out@.len() == i,
            forall|j: int| 0 <= j < i ==> (#[trigger] f[j]).1.as_u64() is Some,
            forall|j: int| 0 <= j < i ==> (#[trigger] out@[j]).0@ == f[j].0 && out@[j].1 == f[j].1.as_u64()->0,
        decreases n - i,
    {
        match fields[i].1.as_u64() {
            None => {
                assert(!(f[i as int].1.as_u64() is Some));
                return None;
            },
            Some(o) => {
                out.push((fields[i].0.clone(), o));
            },
        }
        i = i + 1;
    }
    proof {
        assert(offsets_view(out@) =~= offsets_from(f)->0);
    }
    Some(out)
}

/// The names in a `keys` array, when every item is a string.
fn parse_keys(items: &Vec<Json>) -> (r: Option<Vec<String>>)
    ensures
        keys_from(items_view(items@)) matches Some(k) ==> (r matches Some(v) && keys_view(v@) == k),
        keys_from(items_view(items@)) is None ==> r is None,
{
    let ghost it = items_view(items@);
    proof {
        lemma_items_view(items@);
    }
    let mut out: Vec<String> = Vec::new();
    let n = items.len();
    let mut i: usize = 0;
    while i < n
        invariant
            n == items@.len(),
            it == items_view(items@),
            it.len() == n,
            forall|j: int| 0 <= j < n ==> #[trigger] it[j] == json_view(items@[j]),
            0 <= i <= n,
            out@.len() == i,
            forall|j: int| 0 <= j < i ==> (#[trigger] it[j]).as_str() is Some,
            forall|j: int| 0 <= j < i ==> (#[trigger] out@[j])@ == it[j].as_str()->0,
        decreases n - i,
    {
        match items[i].as_str() {
            None => {
                assert(!(it[i as int].as_str() is Some));
                return None;
            },
            Some(k) => {
                out.push(k.clone());
            },
        }
        i = i + 1;
    }
    proof {
        assert(keys_view(out@) =~= keys_from(it)->0);
    }
    Some(out)
}

impl Node {
    /// Replies `body` to `request`: see [`reply_v`].
    fn reply(&self, request: &Message, body: Vec<(String, Json)>, out: &mut Vec<Envelope>)
        ensures
            envelopes_view(final(out)@) == envelopes_view(old(out)@) + reply_v(
                self.spec_view(),
                request.spec_view(),
                fields_view(body@),
            ),
    {
        match request.get_body_value("msg_id", Expect::U64) {
            Err(_) => {
                assert(envelopes_view(out@) =~= envelopes_view(old(out)@) + Seq::<EnvelopeV>::empty());
            },
            Ok(v) => {
                let m = v.as_u64().unwrap();
                let mut body = body;
                set_field(&mut body, owned("in_reply_to"), Json::UInt(m));
                let rt = request.body.kind.reply_type();
                let ghost b1 = fields_view(body@);
                let ghost rv = rt@;
                set_field(&mut body, owned("type"), Json::Str(rt));
                proof {
                    lemma_lookup_upsert(b1, "type"@, JsonV::Str(rv), "type"@);
                }
                let e = self.send(request.src.clone(), body);
                out.push(e);
                proof {
                    assert(envelopes_view(out@) =~= envelopes_view(old(out)@) + seq![e.spec_view()]);
                }
            },
        }
    }

    /// Handles `init`: see [`handle_init`].
    #[verifier::loop_isolation(false)]
    fn handle_init(&mut self, request: &Message, out: &mut Vec<Envelope>)
        ensures
            ({
                let (n, e) = handle_init(old(self).spec_view(), request.spec_view());
                final(self).spec_view() == n && envelopes_view(final(out)@) == envelopes_view(
                    old(out)@,
                ) + e
            }),
    {
        proof {
            assert(envelopes_view(out@) =~= envelopes_view(old(out)@) + Seq::<EnvelopeV>::empty());
        }
        if self.is_init() {
            return ;
        }
        let node_id = match request.get_body_value("node_id", Expect::Str) {
            Err(_) => return ,
            Ok(v) => v.as_str().unwrap().clone(),
        };
        self.id = node_id.clone();
        let ids = match request.get_body_value("node_ids", Expect::Array) {
            Err(_) => return ,
            Ok(v) => v.as_array().unwrap(),
        };
        let ghost items = items_view(ids@);
        let ghost n0 = self.spec_view();
        proof {
            lemma_items_view(ids@);
            assert(items.take(0) =~= Seq::<JsonV>::empty());
            assert(n0.neighbors + Seq::<Seq<char>>::empty() =~= n0.neighbors);
        }
        let n = ids.len();
        let mut i: usize = 0;
        while i < n
            invariant
                n == ids@.len(),
                0 <= i <= n,
                items == items_view(ids@),
                items.len() == n,
                forall|j: int| 0 <= j < n ==> #[trigger] items[j] == json_view(ids@[j]),
                node_id@ == n0.id,
                peers(items.take(i as int), n0.id).1,
                self.spec_view() == (NodeV {
                    neighbors: n0.neighbors + peers(items.take(i as int), n0.id).0,
                    ..n0
                }),
                envelopes_view(out@) == envelopes_view(old(out)@),
            decreases n - i,
        {
            proof {
                lemma_peers_step(items, n0.id, i as int);
            }
            match ids[i].as_str() {
                None => {
                    proof {
                        lemma_peers_stop(items, n0.id, i + 1);
                    }
                    return ;
                },
                Some(s) => {
                    if *s != node_id {
                        let ghost before = self.spec_view().neighbors;
                        self.neighbors.push(s.clone());
                        proof {
                            assert(self.spec_view().neighbors =~= before.push(s@));
                        }
                    }
                },
            }
            i = i + 1;
        }
        proof {
            assert(items.take(n as int) =~= items);
        }
        self.reply(request, empty_body(), out);
    }
}

impl Node {
    /// Drives a log task over its progress: see [`drive`].
    fn drive(&mut self, task: Task, p: Progress, out: &mut Vec<Envelope>)
        requires
            typed_progress(p.spec_view()),
        ensures
            ({
                let (n, e) = drive(old(self).spec_view(), task.spec_view(), p.spec_view());
                final(self).spec_view() == n && envelopes_view(final(out)@) == envelopes_view(
                    old(out)@,
                ) + e
            }),
    {
        match p {
            Progress::Call(r) => {
                self.rpc(r.dest, r.body, Some(task), out);
            },
            Progress::Finished => {
                let (request, body) = task.into_done();
                self.reply(&request, body, out);
            },
            Progress::Abandoned => {
                assert(envelopes_view(out@) =~= envelopes_view(old(out)@) + Seq::<EnvelopeV>::empty());
            },
        }
    }

    /// Handles `generate`: see [`handle_generate`].
    fn handle_generate(&mut self, request: &Message, out: &mut Vec<Envelope>)
        ensures
            ({
                let (n, e) = handle_generate(old(self).spec_view(), request.spec_view());
                final(self).spec_view() == n && envelopes_view(final(out)@) == envelopes_view(
                    old(out)@,
                ) + e
            }),
    {
        let mut id = self.id.clone();
        id.append("#");
        let m = self.msg_id();
        push_decimal(&mut id, m);
        let ghost idv = id@;
        let body = vec![(owned("id"), Json::Str(id))];
        proof {
            lemma_fields_view(body@);
            assert(fields_view(body@) =~= seq![("id"@, JsonV::Str(idv))]);
            assert(idv == generated_id(old(self).spec_view().id, m));
        }
        self.reply(request, body, out);
    }

    /// Whether the node has seen the broadcast message `m`.
    fn has_message(&self, m: &Json) -> (r: bool)
        ensures
            r == seen(self.spec_view().messages, m@),
            r <==> exists|i: int|
                0 <= i < self.spec_view().messages.len() && #[trigger] json_eq(
                    self.spec_view().messages[i],
                    m@,
                ),
    {
        let ghost ms = self.spec_view().messages;
        proof {
            lemma_items_view(self.messages@);
        }
        let n = self.messages.len();
        let mut i: usize = 0;
        while i < n
            invariant
                n == self.messages@.len(),
                ms == items_view(self.messages@),
                ms.len() == n,
                forall|j: int| 0 <= j < n ==> #[trigger] ms[j] == json_view(self.messages@[j]),
                0 <= i <= n,
                forall|j: int| 0 <= j < i ==> !json_eq(#[trigger] ms[j], m@),
            decreases n - i,
        {
            if self.messages[i].eq_value(m) {
                assert(json_eq(ms[i as int], m@));
                assert(json_eq(self.spec_view().messages[i as int], m@));
                return true;
            }
            i = i + 1;
        }
        false
    }

    /// Handles `broadcast`: see [`handle_broadcast`].
    #[verifier::loop_isolation(false)]
    fn handle_broadcast(&mut self, request: &Message, out: &mut Vec<Envelope>)
        ensures
            ({
                let (n, e) = handle_broadcast(old(self).spec_view(), request.spec_view());
                final(self).spec_view() == n && envelopes_view(final(out)@) == envelopes_view(
                    old(out)@,
                ) + e
            }),
    {
        let message = match request.get_body_value_raw("message") {
            Err(_) => {
                assert(envelopes_view(out@) =~= envelopes_view(old(out)@) + Seq::<EnvelopeV>::empty());
                return ;
            },
            Ok(m) => m,
        };
        if self.has_message(message) {
            self.reply(request, empty_body(), out);
            return ;
        }
        let ghost before = self.spec_view().messages;
        self.messages.push(message.copy_value());
        proof {
            crate::json::lemma_items_view_push(old(self).messages@, self.messages@.last());
            assert(self.messages@.drop_last() =~= old(self).messages@);
        }
        let ghost n1 = self.spec_view();
        let ghost nbs = n1.neighbors;
        let ghost m = message@;
        let ghost out1 = envelopes_view(out@);
        assert(n1 == NodeV { messages: before.push(m), ..old(self).spec_view() });
        proof {
            assert(nbs.take(0) =~= Seq::<Seq<char>>::empty());
            assert(out1 =~= out1 + Seq::<EnvelopeV>::empty());
        }
        let n = self.neighbors.len();
        let mut i: usize = 0;
        while i < n
            invariant
                0 <= i <= n,
                self.spec_view().neighbors == nbs,
                nbs.len() == n,
                self.neighbors@.len() == n,
                self.spec_view() == forward(n1, nbs.take(i as int), request.src@, m).0,
                envelopes_view(out@) == out1 + forward(n1, nbs.take(i as int), request.src@, m).1,
            decreases n - i,
        {
            let nb = self.neighbors[i].clone();
            proof {
                assert(nbs[i as int] == nb@);
                assert(nbs.take(i + 1).drop_last() =~= nbs.take(i as int));
            }
            if nb != request.src {
                let body = vec![
                    (owned("type"), Json::Str(owned("broadcast"))),
                    (owned("message"), message.copy_value()),
                ];
                proof {
                    lemma_fields_view(body@);
                    assert(fields_view(body@) =~= gossip_body(m));
                }
                self.rpc(nb, body, None, out);
                proof {
                    assert(envelopes_view(out@) =~= out1 + forward(n1, nbs.take(i + 1), request.src@, m).1);
                }
            }
            i = i + 1;
        }
        proof {
            assert(nbs.take(n as int) =~= nbs);
        }
        self.reply(request, empty_body(), out);
        proof {
            assert(envelopes_view(out@) =~= envelopes_view(old(out)@) + handle_broadcast(old(self).spec_view(), request.spec_view()).1);
        }
    }
}

impl Node {
    /// Starts or restarts a counter read: see [`counter_sync`].
    fn counter_sync(&mut self, request: Message, out: &mut Vec<Envelope>)
        ensures
            ({
                let (n, e) = counter_sync(old(self).spec_view(), request.spec_view());
                final(self).spec_view() == n && envelopes_view(final(out)@) == envelopes_view(
                    old(out)@,
                ) + e
            }),
    {
        let value = self.msg_id();
        let mut key = owned("sync-");
        key.append(self.id.as_str());
        let r = KV::new_seq().write(key.as_str(), Json::UInt(value));
        proof {
            lemma_bodies_typed();
        }
        self.rpc(r.dest, r.body, Some(Task::CounterSync(request)), out);
        proof {
            assert(envelopes_view(out@) =~= envelopes_view(old(out)@) + counter_sync(old(self).spec_view(), request.spec_view()).1);
        }
    }

    /// Handles `read`: see [`handle_read`].
    fn handle_read(&mut self, request: Message, out: &mut Vec<Envelope>)
        ensures
            ({
                let (n, e) = handle_read(old(self).spec_view(), request.spec_view());
                final(self).spec_view() == n && envelopes_view(final(out)@) == envelopes_view(
                    old(out)@,
                ) + e
            }),
    {
        match self.workload {
            Workload::Broadcast => {
                let ghost ms = self.spec_view().messages;
                let body = vec![(owned("messages"), Json::Array(copy_items(&self.messages)))];
                proof {
                    lemma_fields_view(body@);
                    assert(fields_view(body@) =~= seq![("messages"@, JsonV::Array(ms))]);
                }
                self.reply(&request, body, out);
            },
            Workload::GCounter => self.counter_sync(request, out),
        }
    }

    /// Starts or restarts an add: see [`add_read`].
    fn add_read(&mut self, request: Message, delta: u64, out: &mut Vec<Envelope>)
        ensures
            ({
                let (n, e) = add_read(old(self).spec_view(), request.spec_view(), delta);
                final(self).spec_view() == n && envelopes_view(final(out)@) == envelopes_view(
                    old(out)@,
                ) + e
            }),
    {
        let r = KV::new_seq().read("g-counter-key");
        proof {
            lemma_bodies_typed();
        }
        self.rpc(r.dest, r.body, Some(Task::AddRead(request, delta)), out);
        proof {
            assert(envelopes_view(out@) =~= envelopes_view(old(out)@) + add_read(old(self).spec_view(), request.spec_view(), delta).1);
        }
    }

    /// Handles `add`: see [`handle_add`].
    fn handle_add(&mut self, request: Message, out: &mut Vec<Envelope>)
        ensures
            ({
                let (n, e) = handle_add(old(self).spec_view(), request.spec_view());
                final(self).spec_view() == n && envelopes_view(final(out)@) == envelopes_view(
                    old(out)@,
                ) + e
            }),
    {
        let delta = match request.get_body_value("delta", Expect::U64) {
            Err(_) => {
                assert(envelopes_view(out@) =~= envelopes_view(old(out)@) + Seq::<EnvelopeV>::empty());
                return ;
            },
            Ok(v) => v.as_u64().unwrap(),
        };
        self.add_read(request, delta, out);
    }

    /// Handles `send`: see [`handle_send`].
    fn handle_send(&mut self, request: Message, out: &mut Vec<Envelope>)
        ensures
            ({
                let (n, e) = handle_send(old(self).spec_view(), request.spec_view());
                final(self).spec_view() == n && envelopes_view(final(out)@) == envelopes_view(
                    old(out)@,
                ) + e
            }),
    {
        let key = match request.get_body_value("key", Expect::Str) {
            Err(_) => {
                assert(envelopes_view(out@) =~= envelopes_view(old(out)@) + Seq::<EnvelopeV>::empty());
                return ;
            },
            Ok(v) => v.as_str().unwrap().clone(),
        };
        let msg = match request.get_body_value_raw("msg") {
            Err(_) => {
                assert(envelopes_view(out@) =~= envelopes_view(old(out)@) + Seq::<EnvelopeV>::empty());
                return ;
            },
            Ok(v) => v.copy_value(),
        };
        let log = Log::new(KV::new_lin());
        let (append, r) = log.append(key.as_str(), msg);
        proof {
            lemma_bodies_typed();
        }
        self.drive(Task::Send(request, append), Progress::Call(r), out);
    }

    /// Handles `poll`: see [`handle_poll`].
    fn handle_poll(&mut self, request: Message, out: &mut Vec<Envelope>)
        ensures
            ({
                let (n, e) = handle_poll(old(self).spec_view(), request.spec_view());
                final(self).spec_view() == n && envelopes_view(final(out)@) == envelopes_view(
                    old(out)@,
                ) + e
            }),
    {
        let offsets = match request.get_body_value("offsets", Expect::Object) {
            Err(_) => {
                assert(envelopes_view(out@) =~= envelopes_view(old(out)@) + Seq::<EnvelopeV>::empty());
                return ;
            },
            Ok(v) => match parse_offsets(v.as_object().unwrap()) {
                None => {
                    assert(envelopes_view(out@) =~= envelopes_view(old(out)@) + Seq::<EnvelopeV>::empty());
                    return ;
                },
                Some(o) => o,
            },
        };
        let log = Log::new(KV::new_lin());
        let ghost s0 = LogReadV {
            offsets: offsets_view(offsets@),
            index: 0,
            next: 0,
            entries: Seq::empty(),
            result: Seq::empty(),
        };
        let (reading, p) = log.read(offsets);
        proof {
            lemma_read_typed(s0, log.kv.kind.spec_service(), request.body.kind, request.fields());
        }
        self.drive(Task::Poll(request, reading), p, out);
    }

    /// Handles `commit_offsets`: see [`handle_commit`].
    fn handle_commit(&mut self, request: Message, out: &mut Vec<Envelope>)
        ensures
            ({
                let (n, e) = handle_commit(old(self).spec_view(), request.spec_view());
                final(self).spec_view() == n && envelopes_view(final(out)@) == envelopes_view(
                    old(out)@,
                ) + e
            }),
    {
        let offsets = match request.get_body_value("offsets", Expect::Object) {
            Err(_) => {
                assert(envelopes_view(out@) =~= envelopes_view(old(out)@) + Seq::<EnvelopeV>::empty());
                return ;
            },
            Ok(v) => match parse_offsets(v.as_object().unwrap()) {
                None => {
                    assert(envelopes_view(out@) =~= envelopes_view(old(out)@) + Seq::<EnvelopeV>::empty());
                    return ;
                },
                Some(o) => o,
            },
        };
        let log = Log::new(KV::new_lin());
        let ghost s0 = CommitV { offsets: offsets_view(offsets@), index: 0, next: 0, writing: false };
        let (commit, p) = log.commit(offsets);
        proof {
            lemma_commit_seek_typed(s0, log.kv.kind.spec_service());
        }
        self.drive(Task::Commit(request, commit), p, out);
    }

    /// Handles `list_committed_offsets`: see [`handle_list_committed`].
    fn handle_list_committed(&mut self, request: Message, out: &mut Vec<Envelope>)
        ensures
            ({
                let (n, e) = handle_list_committed(old(self).spec_view(), request.spec_view());
                final(self).spec_view() == n && envelopes_view(final(out)@) == envelopes_view(
                    old(out)@,
                ) + e
            }),
    {
        let keys = match request.get_body_value("keys", Expect::Array) {
            Err(_) => {
                assert(envelopes_view(out@) =~= envelopes_view(old(out)@) + Seq::<EnvelopeV>::empty());
                return ;
            },
            Ok(v) => match parse_keys(v.as_array().unwrap()) {
                None => {
                    assert(envelopes_view(out@) =~= envelopes_view(old(out)@) + Seq::<EnvelopeV>::empty());
                    return ;
                },
                Some(k) => k,
            },
        };
        let log = Log::new(KV::new_lin());
        let ghost s0 = ReadCommittedV {
            keys: keys_view(keys@),
            index: 0,
            next: 0,
            last: None,
            result: Seq::empty(),
        };
        let (search, p) = log.read_committed(keys);
        proof {
            lemma_committed_typed(s0, log.kv.kind.spec_service(), request.body.kind, request.fields());
        }
        self.drive(Task::ListCommitted(request, search), p, out);
    }
}

impl Node {
    /// Hands `reply` to the task that waited on it: see [`resume`].
    fn resume(&mut self, task: Task, reply: Message, out: &mut Vec<Envelope>)
        ensures
            ({
                let (n, e) = resume(old(self).spec_view(), task.spec_view(), reply.spec_view());
                final(self).spec_view() == n && envelopes_view(final(out)@) == envelopes_view(
                    old(out)@,
                ) + e
            }),
    {
        let log = Log::new(KV::new_lin());
        match task {
            Task::CounterSync(request) => match write_result(reply) {
                Ok(()) => {
                    let r = KV::new_seq().read("g-counter-key");
                    proof {
                        lemma_bodies_typed();
                    }
                    self.rpc(r.dest, r.body, Some(Task::CounterRead(request)), out);
                    proof {
                        assert(envelopes_view(out@) =~= envelopes_view(old(out)@) + resume(old(self).spec_view(), task.spec_view(), reply.spec_view()).1);
                    }
                },
                Err(_) => self.counter_sync(request, out),
            },
            Task::CounterRead(request) => match read_result(reply) {
                Ok(v) => {
                    let value = match v.as_u64() {
                        Some(x) => x,
                        None => 0,
                    };
                    let body = vec![(owned("value"), Json::UInt(value))];
                    proof {
                        lemma_fields_view(body@);
                        assert(fields_view(body@) =~= seq![("value"@, JsonV::UInt(counter_value(reply.spec_view())))]);
                    }
                    self.reply(&request, body, out);
                },
                Err(_) => self.counter_sync(request, out),
            },
            Task::AddRead(request, delta) => {
                let value = match read_result(reply) {
                    Ok(v) => match v.as_u64() {
                        Some(x) => x,
                        None => 0,
                    },
                    Err(_) => 0,
                };
                let r = KV::new_seq().compare_and_swap(
                    "g-counter-key",
                    Json::UInt(value),
                    Json::UInt(value.wrapping_add(delta)),
                );
                proof {
                    lemma_bodies_typed();
                }
                self.rpc(r.dest, r.body, Some(Task::AddSwap(request, delta)), out);
                proof {
                    assert(envelopes_view(out@) =~= envelopes_view(old(out)@) + resume(old(self).spec_view(), task.spec_view(), reply.spec_view()).1);
                }
            },
            Task::AddSwap(request, delta) => match write_result(reply) {
                Ok(()) => self.reply(&request, empty_body(), out),
                Err(_) => self.add_read(request, delta, out),
            },
            Task::Send(request, append) => {
                let mut append = append;
                let ghost s0 = append.spec_view();
                let ghost kind = reply.body.kind;
                let ghost fields = reply.fields();
                let p = append.on_reply(&log, reply);
                proof {
                    lemma_append_step_typed(s0, log.kv.kind.spec_service(), kind, fields);
                }
                self.drive(Task::Send(request, append), p, out);
            },
            Task::Poll(request, reading) => {
                let mut reading = reading;
                let ghost s0 = reading.spec_view();
                let ghost kind = reply.body.kind;
                let ghost fields = reply.fields();
                let p = reading.on_reply(&log, reply);
                proof {
                    lemma_read_typed(s0, log.kv.kind.spec_service(), kind, fields);
                }
                self.drive(Task::Poll(request, reading), p, out);
            },
            Task::Commit(request, commit) => {
                let mut commit = commit;
                let ghost s0 = commit.spec_view();
                let ghost kind = reply.body.kind;
                let ghost fields = reply.fields();
                let p = commit.on_reply(&log, reply);
                proof {
                    lemma_commit_step_typed(s0, log.kv.kind.spec_service(), kind, fields);
                }
                self.drive(Task::Commit(request, commit), p, out);
            },
            Task::ListCommitted(request, search) => {
                let mut search = search;
                let ghost s0 = search.spec_view();
                let ghost kind = reply.body.kind;
                let ghost fields = reply.fields();
                let p = search.on_reply(&log, reply);
                proof {
                    lemma_committed_typed(s0, log.kv.kind.spec_service(), kind, fields);
                }
                self.drive(Task::ListCommitted(request, search), p, out);
            },
        }
    }

    /// Hands a message that is no reply to the handler of its type: see [`handle`].
    fn handle(&mut self, request: Message, out: &mut Vec<Envelope>)
        ensures
            ({
                let (n, e) = handle(old(self).spec_view(), request.spec_view());
                final(self).spec_view() == n && envelopes_view(final(out)@) == envelopes_view(
                    old(out)@,
                ) + e
            }),
    {
        match request.body.kind {
            MessageType::Init => self.handle_init(&request, out),
            MessageType::Echo => {
                let body = copy_fields(&request.body.extra);
                self.reply(&request, body, out);
            },
            MessageType::Generate => self.handle_generate(&request, out),
            MessageType::Topology => self.reply(&request, empty_body(), out),
            MessageType::Broadcast => self.handle_broadcast(&request, out),
            MessageType::Read => self.handle_read(request, out),
            MessageType::Add => self.handle_add(request, out),
            MessageType::Send => self.handle_send(request, out),
            MessageType::Poll => self.handle_poll(request, out),
            MessageType::CommitOffsets => self.handle_commit(request, out),
            MessageType::ListCommittedOffsets => self.handle_list_committed(request, out),
            _ => {
                assert(envelopes_view(out@) =~= envelopes_view(old(out)@) + Seq::<EnvelopeV>::empty());
            },
        }
    }

    /// Takes one incoming message: see [`node_step`]. Gives the messages to send.
    pub fn step(&mut self, message: Message) -> (out: Vec<Envelope>)
        ensures
            (final(self).spec_view(), envelopes_view(out@)) == node_step(
                old(self).spec_view(),
                message.spec_view(),
            ),
    {
        let mut out: Vec<Envelope> = Vec::new();
        assert(envelopes_view(out@) =~= Seq::<EnvelopeV>::empty());
        if self.halted {
            return out;
        }
        if !self.is_init() && !matches!(message.body.kind, MessageType::Init) {
            self.halted = true;
            return out;
        }
        let reply_to = match message.get_body_value("in_reply_to", Expect::U64) {
            Ok(v) => Some(v.as_u64().unwrap()),
            Err(_) => None,
        };
        match reply_to {
            Some(id) => {
                let ghost cbs = self.callbacks@;
                match self.callbacks.remove(&id) {
                    None => {
                        proof {
                            assert(callbacks_view(self.callbacks@) =~= callbacks_view(cbs));
                        }
                    },
                    Some(task) => {
                        proof {
                            assert(callbacks_view(self.callbacks@) =~= callbacks_view(cbs).remove(id));
                        }
                        self.resume(task, message, &mut out);
                    },
                }
            },
            None => self.handle(message, &mut out),
        }
        out
    }
}

} // verus!
