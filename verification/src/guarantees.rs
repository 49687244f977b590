use vstd::prelude::*;
use crate::json::{JsonV, Fields, lookup, upsert, lemma_lookup_upsert, json_eq};
use crate::message::{MessageV, MessageType};
use crate::node::{peers, NodeV, TaskV, Workload, workload_of, rpc_v, next_id, forward, gossip_body, seen, counter_sync, sync_key, drive, resume, counter_key, handle, node_step, reply_v, generated_id, lemma_generated_id_injective};
use crate::kv::{read_body, cas_body};

verus! {

/// Every task waits on an id that the node has already handed out.
pub open spec fn callbacks_sound(n: NodeV) -> bool {
    forall|id: u64| #[trigger] n.callbacks.contains_key(id) ==> id < n.msg_id
}

/// `n2` has the identity, neighbours, messages, workload and halt of `n`: what
/// requests and replies leave alone.
pub open spec fn stable(n: NodeV, n2: NodeV) -> bool {
    &&& n2.id == n.id
    &&& n2.neighbors == n.neighbors
    &&& n2.messages == n.messages
    &&& n2.workload == n.workload
    &&& n2.halted == n.halted
}

/// `n2` is `n` after requests and replies only, without a wrap of the message
/// counter: [`stable`], a message counter that has not gone back, waiting tasks
/// that are still sound when they were, and no task waiting on an id handed out
/// before on which none waited.
pub open spec fn frame(n: NodeV, n2: NodeV) -> bool {
    &&& stable(n, n2)
    &&& n.msg_id <= n2.msg_id
    &&& (callbacks_sound(n) ==> callbacks_sound(n2))
    &&& forall|x: u64| x < n.msg_id && !(#[trigger] n.callbacks.contains_key(x)) ==> !n2.callbacks.contains_key(x)
}

/// A request keeps the frame, as long as the message counter does not wrap.
proof fn lemma_rpc_frame(n: NodeV, dest: Seq<char>, body: Fields, task: Option<TaskV>)
    ensures
        stable(n, rpc_v(n, dest, body, task).0),
        n.msg_id < u64::MAX ==> frame(n, rpc_v(n, dest, body, task).0),
        n.msg_id < u64::MAX ==> rpc_v(n, dest, body, task).0.msg_id == n.msg_id + 1,
{
}

/// Taking a message id keeps the frame, as long as the counter does not wrap.
proof fn lemma_bump_frame(n: NodeV)
    ensures
        stable(n, NodeV { msg_id: next_id(n), ..n }),
        n.msg_id < u64::MAX ==> frame(n, NodeV { msg_id: next_id(n), ..n }),
        n.msg_id < u64::MAX ==> next_id(n) == n.msg_id + 1,
{
}

proof fn lemma_frame_trans(a: NodeV, b: NodeV, c: NodeV)
    requires
        frame(a, b),
        frame(b, c),
    ensures
        frame(a, c),
{
}

proof fn lemma_forward_frame(n: NodeV, nbs: Seq<Seq<char>>, src: Seq<char>, m: JsonV)
    ensures
        stable(n, forward(n, nbs, src, m).0),
        n.msg_id + nbs.len() <= u64::MAX ==> frame(n, forward(n, nbs, src, m).0),
        n.msg_id + nbs.len() <= u64::MAX ==> forward(n, nbs, src, m).0.msg_id <= n.msg_id + nbs.len(),
    decreases nbs.len(),
{
    if nbs.len() > 0 {
        lemma_forward_frame(n, nbs.drop_last(), src, m);
        let n1 = forward(n, nbs.drop_last(), src, m).0;
        if nbs.last() != src {
            lemma_rpc_frame(n1, nbs.last(), gossip_body(m), None);
            if n.msg_id + nbs.len() <= u64::MAX {
                lemma_frame_trans(n, n1, rpc_v(n1, nbs.last(), gossip_body(m), None).0);
            }
        }
    }
}

proof fn lemma_counter_sync_frame(n: NodeV, req: MessageV)
    ensures
        stable(n, counter_sync(n, req).0),
        n.msg_id + 2 <= u64::MAX ==> frame(n, counter_sync(n, req).0),
{
    let n1 = NodeV { msg_id: next_id(n), ..n };
    lemma_bump_frame(n);
    lemma_rpc_frame(
        n1,
        "seq-kv"@,
        crate::kv::write_body(sync_key(n.id), JsonV::UInt(n.msg_id)),
        Some(TaskV::CounterSync(req)),
    );
}

proof fn lemma_drive_frame(n: NodeV, task: TaskV, p: crate::kv::ProgressV)
    ensures
        stable(n, drive(n, task, p).0),
        n.msg_id < u64::MAX ==> frame(n, drive(n, task, p).0),
{
    if let crate::kv::ProgressV::Call(dest, body) = p {
        lemma_rpc_frame(n, dest, body, Some(task));
    }
}

proof fn lemma_resume_frame(n: NodeV, task: TaskV, reply: MessageV)
    ensures
        stable(n, resume(n, task, reply).0),
        n.msg_id + 2 <= u64::MAX ==> frame(n, resume(n, task, reply).0),
{
    match task {
        TaskV::CounterSync(req) => {
            lemma_counter_sync_frame(n, req);
            lemma_rpc_frame(n, "seq-kv"@, read_body(counter_key()), Some(TaskV::CounterRead(req)));
        },
        TaskV::CounterRead(req) => {
            lemma_counter_sync_frame(n, req);
        },
        TaskV::AddRead(req, d) => {
            let value = crate::node::counter_value(reply);
            lemma_rpc_frame(
                n,
                "seq-kv"@,
                cas_body(
                    counter_key(),
                    JsonV::UInt(value),
                    JsonV::UInt(vstd::wrapping::u64_specs::wrapping_add(value, d)),
                ),
                Some(TaskV::AddSwap(req, d)),
            );
        },
        TaskV::AddSwap(req, d) => {
            lemma_rpc_frame(n, "seq-kv"@, read_body(counter_key()), Some(TaskV::AddRead(req, d)));
        },
        TaskV::Send(req, a) => {
            let (a1, p) = crate::log::append_step(a, "lin-kv"@, reply.kind, reply.fields);
            lemma_drive_frame(n, TaskV::Send(req, a1), p);
        },
        TaskV::Poll(req, r) => {
            let (r1, p) = crate::log::read_step(r, "lin-kv"@, reply.kind, reply.fields);
            lemma_drive_frame(n, TaskV::Poll(req, r1), p);
        },
        TaskV::Commit(req, c) => {
            let (c1, p) = crate::log::commit_step(c, "lin-kv"@, reply.kind, reply.fields);
            lemma_drive_frame(n, TaskV::Commit(req, c1), p);
        },
        TaskV::ListCommitted(req, c) => {
            let (c1, p) = crate::log::committed_step(c, "lin-kv"@, reply.kind, reply.fields);
            lemma_drive_frame(n, TaskV::ListCommitted(req, c1), p);
        },
    }
}

/// What a handler does to the parts of the node that requests and replies do
/// not touch: only `init` sets the id and neighbours, only `broadcast` adds a
/// message, one that the node had not seen.
proof fn lemma_handle(n: NodeV, req: MessageV)
    ensures
        ({
            let n2 = handle(n, req).0;
            &&& n2.workload == n.workload
            &&& n2.halted == n.halted
            &&& n.msg_id + n.neighbors.len() + 2 <= u64::MAX ==> n.msg_id <= n2.msg_id
            &&& n.msg_id + n.neighbors.len() + 2 <= u64::MAX ==> (callbacks_sound(n) ==> callbacks_sound(n2))
            &&& (req.kind is Init || (n2.id == n.id && n2.neighbors == n.neighbors))
            &&& (n2.messages == n.messages || (req.kind is Broadcast && exists|v: JsonV|
                !seen(n.messages, v) && n2.messages == #[trigger] n.messages.push(v)))
        }),
{
    match req.kind {
        MessageType::Init => {},
        MessageType::Generate => {
            lemma_bump_frame(n);
        },
        MessageType::Broadcast => {
            if let Some(m) = lookup(req.fields, "message"@) {
                if !seen(n.messages, m) {
                    let n1 = NodeV { messages: n.messages.push(m), ..n };
                    lemma_forward_frame(n1, n1.neighbors, req.src, m);
                    assert(!seen(n.messages, m) && handle(n, req).0.messages == n.messages.push(m));
                }
            }
        },
        MessageType::Read => {
            if n.workload == Workload::GCounter {
                lemma_counter_sync_frame(n, req);
            }
        },
        MessageType::Add => {
            if let Ok(d) = crate::message::body_value(req.fields, "delta"@, crate::message::Expect::U64) {
                lemma_rpc_frame(n, "seq-kv"@, read_body(counter_key()), Some(TaskV::AddRead(req, d.as_u64()->0)));
            }
        },
        MessageType::Send => {
            let (n2, _) = handle(n, req);
            if let Ok(k) = crate::message::body_value(req.fields, "key"@, crate::message::Expect::Str) {
                if let Some(msg) = lookup(req.fields, "msg"@) {
                    let key = k.as_str()->0;
                    let a = crate::log::AppendV { key, value: msg, phase: crate::log::AppendPhase::ReadOffset };
                    lemma_drive_frame(n, TaskV::Send(req, a), crate::kv::ProgressV::Call("lin-kv"@, read_body(crate::log::offset_key(key))));
                }
            }
        },
        MessageType::Poll => {
            if let Ok(o) = crate::message::body_value(req.fields, "offsets"@, crate::message::Expect::Object) {
                if let Some(offsets) = crate::node::offsets_from(o.as_object()->0) {
                    let (r, p) = crate::log::read_open(
                        crate::log::LogReadV { offsets, index: 0, next: 0, entries: Seq::empty(), result: Seq::empty() },
                        "lin-kv"@,
                    );
                    lemma_drive_frame(n, TaskV::Poll(req, r), p);
                }
            }
        },
        MessageType::CommitOffsets => {
            if let Ok(o) = crate::message::body_value(req.fields, "offsets"@, crate::message::Expect::Object) {
                if let Some(offsets) = crate::node::offsets_from(o.as_object()->0) {
                    let (c, p) = crate::log::commit_seek(
                        crate::log::CommitV { offsets, index: 0, next: 0, writing: false },
                        "lin-kv"@,
                    );
                    lemma_drive_frame(n, TaskV::Commit(req, c), p);
                }
            }
        },
        MessageType::ListCommittedOffsets => {
            if let Ok(a) = crate::message::body_value(req.fields, "keys"@, crate::message::Expect::Array) {
                if let Some(keys) = crate::node::keys_from(a.as_array()->0) {
                    let (c, p) = crate::log::committed_open(
                        crate::log::ReadCommittedV { keys, index: 0, next: 0, last: None, result: Seq::empty() },
                        "lin-kv"@,
                    );
                    lemma_drive_frame(n, TaskV::ListCommitted(req, c), p);
                }
            }
        },
        _ => {},
    }
}

/// Request ids stay sound: after any message, every id that a task waits on has
/// been handed out, so a new request never takes the place of a waiting task,
/// and the message counter has not gone back; as long as the counter does not
/// reach its largest value.
pub proof fn lemma_step_callbacks_sound(n: NodeV, m: MessageV)
    requires
        callbacks_sound(n),
        n.msg_id + n.neighbors.len() + 2 <= u64::MAX,
    ensures
        callbacks_sound(node_step(n, m).0),
        n.msg_id <= node_step(n, m).0.msg_id,
{
    if !n.halted && !(n.id.len() == 0 && !(m.kind is Init)) {
        match crate::message::body_value(m.fields, "in_reply_to"@, crate::message::Expect::U64) {
            Ok(r) => {
                let id = r.as_u64()->0;
                if n.callbacks.contains_key(id) {
                    let n1 = NodeV { callbacks: n.callbacks.remove(id), ..n };
                    lemma_resume_frame(n1, n.callbacks[id], m);
                }
            },
            Err(_) => {
                lemma_handle(n, m);
            },
        }
    }
}

/// A reply resumes its task once: when the tasks are sound, after a reply to the
/// request id `r` no task waits on `r` any more (the task that waited on it, if
/// any, took that reply), so a later reply to `r` finds none, and the node then
/// neither changes nor sends anything; for a running node, as long as the
/// counter does not reach its largest value.
pub proof fn lemma_reply_resumes_once(n: NodeV, m: MessageV, m2: MessageV, r: u64)
    requires
        callbacks_sound(n),
        n.msg_id + n.neighbors.len() + 2 <= u64::MAX,
        !n.halted,
        n.id.len() > 0,
        crate::message::body_value(m.fields, "in_reply_to"@, crate::message::Expect::U64) matches Ok(v)
            && v.as_u64() == Some(r),
        crate::message::body_value(m2.fields, "in_reply_to"@, crate::message::Expect::U64) matches Ok(v)
            && v.as_u64() == Some(r),
    ensures
        !node_step(n, m).0.callbacks.contains_key(r),
        node_step(node_step(n, m).0, m2) == (node_step(n, m).0, Seq::<crate::message::EnvelopeV>::empty()),
{
    if !n.halted {
        if n.callbacks.contains_key(r) {
            let n0 = NodeV { callbacks: n.callbacks.remove(r), ..n };
            assert(!n0.callbacks.contains_key(r));
            lemma_resume_frame(n0, n.callbacks[r], m);
        }
    }
}

/// The node after each message of `ms` in turn, from `n`.
pub open spec fn run_node(n: NodeV, ms: Seq<MessageV>) -> NodeV
    decreases ms.len(),
{
    if ms.len() == 0 {
        n
    } else {
        node_step(run_node(n, ms.drop_last()), ms.last()).0
    }
}

/// Whether the message counter of `n` is far enough from its largest value that
/// no message can make it wrap.
pub open spec fn room(n: NodeV) -> bool {
    n.msg_id + n.neighbors.len() + 2 <= u64::MAX
}

/// Whether a running node `n` answers `m` as a `generate` request.
pub open spec fn answers_generate(n: NodeV, m: MessageV) -> bool {
    &&& !n.halted
    &&& n.id.len() > 0
    &&& m.kind is Generate
    &&& crate::message::body_value(m.fields, "in_reply_to"@, crate::message::Expect::U64) is Err
}

/// One message moves the counter on, never back, and leaves a set id as it is;
/// a `generate` moves it on by exactly one.
proof fn lemma_step_counter(n: NodeV, m: MessageV)
    requires
        room(n),
    ensures
        n.msg_id <= node_step(n, m).0.msg_id,
        n.id.len() > 0 ==> node_step(n, m).0.id == n.id,
        answers_generate(n, m) ==> node_step(n, m) == handle(n, m) && node_step(n, m).0.msg_id
            == n.msg_id + 1,
{
    if !n.halted && !(n.id.len() == 0 && !(m.kind is Init)) {
        match crate::message::body_value(m.fields, "in_reply_to"@, crate::message::Expect::U64) {
            Ok(r) => {
                let id = r.as_u64()->0;
                if n.callbacks.contains_key(id) {
                    let n1 = NodeV { callbacks: n.callbacks.remove(id), ..n };
                    lemma_resume_frame(n1, n.callbacks[id], m);
                }
            },
            Err(_) => {
                lemma_handle(n, m);
            },
        }
    }
}

proof fn lemma_run_counter(n: NodeV, ms: Seq<MessageV>, i: int, j: int)
    requires
        0 <= i <= j <= ms.len(),
        forall|t: int| 0 <= t < ms.len() ==> #[trigger] room(run_node(n, ms.take(t))),
    ensures
        run_node(n, ms.take(i)).msg_id <= run_node(n, ms.take(j)).msg_id,
        run_node(n, ms.take(i)).id.len() > 0 ==> run_node(n, ms.take(j)).id == run_node(
            n,
            ms.take(i),
        ).id,
    decreases j - i,
{
    if i < j {
        lemma_run_counter(n, ms, i, j - 1);
        assert(ms.take(j).drop_last() =~= ms.take(j - 1));
        assert(room(run_node(n, ms.take(j - 1))));
        lemma_step_counter(run_node(n, ms.take(j - 1)), ms[j - 1]);
    }
}

/// The reply to a `generate` holds the id made of the node's id and its message
/// counter.
proof fn lemma_generate_reply(n: NodeV, m: MessageV)
    requires
        room(n),
        answers_generate(n, m),
        crate::message::body_value(m.fields, "msg_id"@, crate::message::Expect::U64) is Ok,
    ensures
        node_step(n, m).1.len() == 1,
        lookup(node_step(n, m).1[0].body, "id"@) == Some(JsonV::Str(generated_id(n.id, n.msg_id))),
{
    lemma_step_counter(n, m);
    reveal_strlit("id");
    reveal_strlit("in_reply_to");
    reveal_strlit("type");
    assert("id"@.len() != "in_reply_to"@.len());
    assert("id"@.len() != "type"@.len());
    let n1 = NodeV { msg_id: next_id(n), ..n };
    let body = seq![("id"@, JsonV::Str(generated_id(n.id, n.msg_id)))];
    lemma_reply_answers(n1, m, body, "id"@);
}

/// Generated ids never repeat over a run: of two `generate` requests that a node
/// answers in a run of messages, the replies carry different ids, each made of
/// the node's id and the message counter at its request; as long as the counter
/// does not reach its largest value. (Nodes with different ids never generate
/// the same id either: see [`lemma_generated_id_injective`].)
pub proof fn lemma_generated_ids_unique(n: NodeV, ms: Seq<MessageV>, i: int, j: int)
    requires
        0 <= i < j < ms.len(),
        forall|t: int| 0 <= t < ms.len() ==> #[trigger] room(run_node(n, ms.take(t))),
        answers_generate(run_node(n, ms.take(i)), ms[i]),
        answers_generate(run_node(n, ms.take(j)), ms[j]),
        crate::message::body_value(ms[i].fields, "msg_id"@, crate::message::Expect::U64) is Ok,
        crate::message::body_value(ms[j].fields, "msg_id"@, crate::message::Expect::U64) is Ok,
    ensures
        ({
            let a = node_step(run_node(n, ms.take(i)), ms[i]).1;
            let b = node_step(run_node(n, ms.take(j)), ms[j]).1;
            &&& a.len() == 1
            &&& b.len() == 1
            &&& lookup(a[0].body, "id"@) == Some(
                JsonV::Str(generated_id(run_node(n, ms.take(i)).id, run_node(n, ms.take(i)).msg_id)),
            )
            &&& lookup(b[0].body, "id"@) == Some(
                JsonV::Str(generated_id(run_node(n, ms.take(j)).id, run_node(n, ms.take(j)).msg_id)),
            )
            &&& lookup(a[0].body, "id"@) != lookup(b[0].body, "id"@)
        }),
{
    let si = run_node(n, ms.take(i));
    let sj = run_node(n, ms.take(j));
    assert(room(si));
    assert(room(sj));
    lemma_generate_reply(si, ms[i]);
    lemma_generate_reply(sj, ms[j]);
    lemma_step_counter(si, ms[i]);
    assert(ms.take(i + 1).drop_last() =~= ms.take(i));
    lemma_run_counter(n, ms, i + 1, j);
    if generated_id(si.id, si.msg_id) == generated_id(sj.id, sj.msg_id) {
        lemma_generated_id_injective(si.id, si.msg_id, sj.id, sj.msg_id);
    }
}

/// The ids that `k` takes of the message counter give, one after another, and the
/// node after them: each take gives the counter and moves it on by one, as
/// `Node::msg_id` does.
pub open spec fn take_ids(n: NodeV, k: nat) -> (NodeV, Seq<u64>)
    decreases k,
{
    if k == 0 {
        (n, Seq::empty())
    } else {
        let (n1, ids) = take_ids(n, (k - 1) as nat);
        (NodeV { msg_id: next_id(n1), ..n1 }, ids.push(n1.msg_id))
    }
}

/// The counter hands out consecutive ids: `k` takes from a node whose counter is
/// `c` give `c`, `c + 1`, ..., `c + k - 1`, each once, and leave the counter at
/// `c + k` (from a new node, `0` to `k - 1`); as long as it does not wrap.
pub proof fn lemma_take_ids(n: NodeV, k: nat)
    requires
        n.msg_id + k <= u64::MAX,
    ensures
        take_ids(n, k).1 == Seq::new(k, |i: int| (n.msg_id + i) as u64),
        take_ids(n, k).0.msg_id == n.msg_id + k,
    decreases k,
{
    if k > 0 {
        lemma_take_ids(n, (k - 1) as nat);
        assert(take_ids(n, k).1 =~= Seq::new(k, |i: int| (n.msg_id + i) as u64));
    }
}

/// Nothing is handled before `init`: a node without an id handles an `init`
/// at once; any other message first stops it, and then no message of the run,
/// `init` or not, is handled or answered, and the node stays as it was.
pub proof fn lemma_nothing_before_init(n: NodeV, ms: Seq<MessageV>, t: int)
    requires
        !n.halted,
        n.id.len() == 0,
        0 <= t < ms.len(),
        !(ms[0].kind is Init),
    ensures
        node_step(run_node(n, ms.take(t)), ms[t]).1.len() == 0,
        run_node(n, ms.take(t + 1)) == (NodeV { halted: true, ..n }),
    decreases t,
{
    assert(ms.take(t + 1).drop_last() =~= ms.take(t));
    if t == 0 {
        assert(ms.take(0) =~= Seq::<MessageV>::empty());
    } else {
        lemma_nothing_before_init(n, ms, t - 1);
    }
}

/// A running node handles an `init` that is no reply at once, as its handler says.
pub proof fn lemma_init_handled_at_once(n: NodeV, m: MessageV)
    requires
        !n.halted,
        m.kind is Init,
        crate::message::body_value(m.fields, "in_reply_to"@, crate::message::Expect::U64) is Err,
    ensures
        node_step(n, m) == handle(n, m),
{
}

/// The broadcast messages only grow, and never twice: after any message the node
/// still holds the messages it held, in order, with at most one new one that it
/// did not hold before.
pub proof fn lemma_step_messages(n: NodeV, m: MessageV)
    ensures
        node_step(n, m).0.messages == n.messages || exists|v: JsonV|
            !seen(n.messages, v) && node_step(n, m).0.messages == #[trigger] n.messages.push(v),
{
    if !n.halted && !(n.id.len() == 0 && !(m.kind is Init)) {
        match crate::message::body_value(m.fields, "in_reply_to"@, crate::message::Expect::U64) {
            Ok(r) => {
                let id = r.as_u64()->0;
                if n.callbacks.contains_key(id) {
                    let n1 = NodeV { callbacks: n.callbacks.remove(id), ..n };
                    lemma_resume_frame(n1, n.callbacks[id], m);
                }
            },
            Err(_) => {
                lemma_handle(n, m);
            },
        }
    }
}

/// Every reply answers its request: it goes from the node back to the request's
/// source, its `in_reply_to` is the request's `msg_id`, its `type` is the
/// request's type with `_ok`, and every other field is the one given.
pub proof fn lemma_reply_answers(n: NodeV, req: MessageV, body: Fields, k: Seq<char>)
    requires
        reply_v(n, req, body).len() > 0,
        k != "in_reply_to"@,
        k != "type"@,
    ensures
        reply_v(n, req, body).len() == 1,
        reply_v(n, req, body)[0].src == n.id,
        reply_v(n, req, body)[0].dest == req.src,
        lookup(reply_v(n, req, body)[0].body, "in_reply_to"@) == lookup(req.fields, "msg_id"@),
        lookup(reply_v(n, req, body)[0].body, "type"@) == Some(
            JsonV::Str(req.kind.spec_name() + "_ok"@),
        ),
        lookup(reply_v(n, req, body)[0].body, k) == lookup(body, k),
{
    reveal_strlit("in_reply_to");
    reveal_strlit("type");
    let m = crate::message::body_value(req.fields, "msg_id"@, crate::message::Expect::U64)->Ok_0;
    let f1 = upsert(body, "in_reply_to"@, m);
    assert("in_reply_to"@.len() != "type"@.len());
    lemma_lookup_upsert(f1, "type"@, JsonV::Str(req.kind.spec_name() + "_ok"@), "in_reply_to"@);
    lemma_lookup_upsert(body, "in_reply_to"@, m, "in_reply_to"@);
    lemma_lookup_upsert(f1, "type"@, JsonV::Str(req.kind.spec_name() + "_ok"@), "type"@);
    lemma_lookup_upsert(f1, "type"@, JsonV::Str(req.kind.spec_name() + "_ok"@), k);
    lemma_lookup_upsert(body, "in_reply_to"@, m, k);
}

/// An echo is answered with the fields of its body: the reply to an `echo`
/// holds every field of the request but `in_reply_to` and `type` unchanged.
pub proof fn lemma_echo(n: NodeV, req: MessageV, k: Seq<char>)
    requires
        !n.halted,
        n.id.len() > 0,
        req.kind is Echo,
        crate::message::body_value(req.fields, "in_reply_to"@, crate::message::Expect::U64) is Err,
        crate::message::body_value(req.fields, "msg_id"@, crate::message::Expect::U64) is Ok,
        k != "in_reply_to"@,
        k != "type"@,
    ensures
        node_step(n, req).0 == n,
        node_step(n, req).1.len() == 1,
        node_step(n, req).1[0].dest == req.src,
        lookup(node_step(n, req).1[0].body, k) == lookup(req.fields, k),
        lookup(node_step(n, req).1[0].body, "type"@) == Some(JsonV::Str("echo_ok"@)),
{
    lemma_reply_answers(n, req, req.fields, k);
    reveal_strlit("echo");
    reveal_strlit("_ok");
    reveal_strlit("echo_ok");
    assert("echo"@ + "_ok"@ =~= "echo_ok"@);
}

/// What a node is told to broadcast, it reports on a read: after a `broadcast`
/// of `v`, the node holds `v` at the end of its messages, unless it held a value
/// equal to `v` already (then its messages are unchanged), and the reply to a
/// following `read` is an array of the messages it holds.
pub proof fn lemma_broadcast_then_read(n: NodeV, b: MessageV, r: MessageV, v: JsonV)
    requires
        !n.halted,
        n.id.len() > 0,
        n.workload == Workload::Broadcast,
        b.kind is Broadcast,
        crate::message::body_value(b.fields, "in_reply_to"@, crate::message::Expect::U64) is Err,
        lookup(b.fields, "message"@) == Some(v),
        r.kind is Read,
        crate::message::body_value(r.fields, "in_reply_to"@, crate::message::Expect::U64) is Err,
        crate::message::body_value(r.fields, "msg_id"@, crate::message::Expect::U64) is Ok,
    ensures
        seen(n.messages, v) ==> node_step(n, b).0.messages == n.messages,
        !seen(n.messages, v) ==> node_step(n, b).0.messages == n.messages.push(v),
        node_step(node_step(n, b).0, r).1.len() == 1,
        node_step(node_step(n, b).0, r).1[0].dest == r.src,
        lookup(node_step(node_step(n, b).0, r).1[0].body, "messages"@) == Some(
            JsonV::Array(node_step(n, b).0.messages),
        ),
{
    lemma_handle(n, b);
    let n1 = node_step(n, b).0;
    if !seen(n.messages, v) {
        let n0 = NodeV { messages: n.messages.push(v), ..n };
        lemma_forward_frame(n0, n0.neighbors, b.src, v);
        assert(n1.messages == n.messages.push(v));
        assert(n1.messages[n.messages.len() as int] == v);
    }
    reveal_strlit("messages");
    reveal_strlit("in_reply_to");
    reveal_strlit("type");
    assert("messages"@.len() != "in_reply_to"@.len());
    assert("messages"@.len() != "type"@.len());
    lemma_reply_answers(n1, r, seq![("messages"@, JsonV::Array(n1.messages))], "messages"@);
}

/// The fields of a reply of a service to the request with the id `id`.
pub open spec fn service_reply(id: u64, fields: Fields) -> Fields {
    seq![("in_reply_to"@, JsonV::UInt(id))] + fields
}

proof fn lemma_service_reply(id: u64, fields: Fields)
    requires
        lookup(fields, "in_reply_to"@) is None,
    ensures
        crate::message::body_value(service_reply(id, fields), "in_reply_to"@, crate::message::Expect::U64)
            == Ok::<JsonV, (Seq<char>, Option<crate::message::Expect>)>(JsonV::UInt(id)),
        forall|k: Seq<char>| k != "in_reply_to"@ ==> lookup(service_reply(id, fields), k) == #[trigger] lookup(fields, k),
{
    let f = service_reply(id, fields);
    assert(f.drop_first() =~= fields);
}

/// An add goes through the counter: a node that is told to add `d` reads the
/// counter; on a reply that it holds `c` it swaps the counter from `c` to
/// `c + d`; when the swap succeeds it acknowledges the add to its sender, and no
/// longer waits on anything for it.
pub proof fn lemma_add_swaps_counter(n: NodeV, req: MessageV, d: u64, ok: MessageType, c: u64)
    requires
        !n.halted,
        n.id.len() > 0,
        callbacks_sound(n),
        n.msg_id + 2 < u64::MAX,
        req.kind is Add,
        crate::message::body_value(req.fields, "in_reply_to"@, crate::message::Expect::U64) is Err,
        crate::message::body_value(req.fields, "delta"@, crate::message::Expect::U64) == Ok::<
            JsonV,
            (Seq<char>, Option<crate::message::Expect>),
        >(JsonV::UInt(d)),
        !(ok is Error),
    ensures
        ({
            let m = n.msg_id;
            let (n1, o1) = node_step(n, req);
            let r1 = MessageV {
                src: "seq-kv"@,
                dest: n.id,
                kind: ok,
                fields: service_reply(m, seq![("value"@, JsonV::UInt(c))]),
            };
            let (n2, o2) = node_step(n1, r1);
            let r2 = MessageV { src: "seq-kv"@, dest: n.id, kind: ok, fields: service_reply((m + 1) as u64, Seq::empty()) };
            let (n3, o3) = node_step(n2, r2);
            &&& o1 == seq![crate::node::send_v(n, "seq-kv"@, upsert(read_body(counter_key()), "msg_id"@, JsonV::UInt(m)))]
            &&& o2 == seq![crate::node::send_v(n1, "seq-kv"@, upsert(
                cas_body(counter_key(), JsonV::UInt(c), JsonV::UInt(vstd::wrapping::u64_specs::wrapping_add(c, d))),
                "msg_id"@,
                JsonV::UInt((m + 1) as u64),
            ))]
            &&& o3 == reply_v(n2, req, Seq::empty())
            &&& n3.callbacks == n.callbacks
            &&& n3.msg_id == m + 2
        }),
{
    reveal_strlit("in_reply_to");
    reveal_strlit("value");
    assert("in_reply_to"@.len() != "value"@.len());
    let m = n.msg_id;
    let t1 = TaskV::AddRead(req, d);
    let (n1, o1) = node_step(n, req);
    assert(!n.callbacks.contains_key(m));
    assert(n1.callbacks == n.callbacks.insert(m, t1));
    assert(n1.msg_id == m + 1);
    let r1f = seq![("value"@, JsonV::UInt(c))];
    assert(r1f.drop_first() =~= Seq::<(Seq<char>, JsonV)>::empty());
    assert(lookup(r1f.drop_first(), "in_reply_to"@) is None);
    assert(r1f[0].0 != "in_reply_to"@);
    assert(lookup(r1f, "in_reply_to"@) is None);
    assert(lookup(r1f, "value"@) == Some(JsonV::UInt(c)));
    lemma_service_reply(m, r1f);
    let r1 = MessageV { src: "seq-kv"@, dest: n.id, kind: ok, fields: service_reply(m, r1f) };
    assert(n1.callbacks.remove(m) =~= n.callbacks);
    assert(lookup(r1.fields, "value"@) == Some(JsonV::UInt(c)));
    assert(crate::kv::read_outcome(ok, r1.fields) == Some(JsonV::UInt(c)));
    let (n2, o2) = node_step(n1, r1);
    let t2 = TaskV::AddSwap(req, d);
    assert(!n.callbacks.contains_key((m + 1) as u64));
    assert(n2.callbacks == n.callbacks.insert((m + 1) as u64, t2));
    lemma_service_reply((m + 1) as u64, Seq::empty());
    let r2 = MessageV { src: "seq-kv"@, dest: n.id, kind: ok, fields: service_reply((m + 1) as u64, Seq::empty()) };
    assert(n2.callbacks.remove((m + 1) as u64) =~= n.callbacks);
    assert(crate::kv::write_succeeded(ok, r2.fields));
}

/// A read of the counter gives what the store holds after the node's own write:
/// a node that is told to read writes a fresh id under its sync key; when the
/// write succeeds it reads the counter; on a reply that the counter holds `v` it
/// replies `v` to its sender, and no longer waits on anything for it.
pub proof fn lemma_counter_read(n: NodeV, req: MessageV, ok: MessageType, v: u64)
    requires
        !n.halted,
        n.id.len() > 0,
        n.workload == Workload::GCounter,
        callbacks_sound(n),
        n.msg_id + 3 < u64::MAX,
        req.kind is Read,
        crate::message::body_value(req.fields, "in_reply_to"@, crate::message::Expect::U64) is Err,
        !(ok is Error),
    ensures
        ({
            let m = n.msg_id;
            let (n1, o1) = node_step(n, req);
            let r1 = MessageV { src: "seq-kv"@, dest: n.id, kind: ok, fields: service_reply((m + 1) as u64, Seq::empty()) };
            let (n2, o2) = node_step(n1, r1);
            let r2 = MessageV {
                src: "seq-kv"@,
                dest: n.id,
                kind: ok,
                fields: service_reply((m + 2) as u64, seq![("value"@, JsonV::UInt(v))]),
            };
            let (n3, o3) = node_step(n2, r2);
            &&& o1 == seq![crate::node::send_v(n, "seq-kv"@, upsert(
                crate::kv::write_body(sync_key(n.id), JsonV::UInt(m)),
                "msg_id"@,
                JsonV::UInt((m + 1) as u64),
            ))]
            &&& o2 == seq![crate::node::send_v(n1, "seq-kv"@, upsert(read_body(counter_key()), "msg_id"@, JsonV::UInt((m + 2) as u64)))]
            &&& o3 == reply_v(n2, req, seq![("value"@, JsonV::UInt(v))])
            &&& n3.callbacks == n.callbacks
            &&& n3.msg_id == m + 3
        }),
{
    reveal_strlit("in_reply_to");
    reveal_strlit("value");
    assert("in_reply_to"@.len() != "value"@.len());
    let m = n.msg_id;
    let t1 = TaskV::CounterSync(req);
    let (n1, o1) = node_step(n, req);
    assert(!n.callbacks.contains_key((m + 1) as u64));
    assert(n1.callbacks == n.callbacks.insert((m + 1) as u64, t1));
    assert(n1.msg_id == m + 2);
    lemma_service_reply((m + 1) as u64, Seq::empty());
    let r1 = MessageV { src: "seq-kv"@, dest: n.id, kind: ok, fields: service_reply((m + 1) as u64, Seq::empty()) };
    assert(n1.callbacks.remove((m + 1) as u64) =~= n.callbacks);
    assert(crate::kv::write_succeeded(ok, r1.fields));
    let (n2, o2) = node_step(n1, r1);
    let t2 = TaskV::CounterRead(req);
    assert(!n.callbacks.contains_key((m + 2) as u64));
    assert(n2.callbacks == n.callbacks.insert((m + 2) as u64, t2));
    let r2f = seq![("value"@, JsonV::UInt(v))];
    assert(r2f.drop_first() =~= Seq::<(Seq<char>, JsonV)>::empty());
    assert(lookup(r2f.drop_first(), "in_reply_to"@) is None);
    assert(r2f[0].0 != "in_reply_to"@);
    assert(lookup(r2f, "in_reply_to"@) is None);
    assert(lookup(r2f, "value"@) == Some(JsonV::UInt(v)));
    lemma_service_reply((m + 2) as u64, r2f);
    let r2 = MessageV { src: "seq-kv"@, dest: n.id, kind: ok, fields: service_reply((m + 2) as u64, r2f) };
    assert(n2.callbacks.remove((m + 2) as u64) =~= n.callbacks);
    assert(crate::kv::read_outcome(ok, r2.fields) == Some(JsonV::UInt(v)));
    assert(crate::node::counter_value(r2) == v);
}

proof fn lemma_peers_exclude(items: Seq<JsonV>, me: Seq<char>)
    ensures
        !peers(items, me).0.contains(me),
    decreases items.len(),
{
    if items.len() > 0 {
        lemma_peers_exclude(items.drop_last(), me);
        let (p, ok) = peers(items.drop_last(), me);
        if ok {
            if let Some(x) = items.last().as_str() {
                if x != me {
                    assert forall|i: int| 0 <= i < p.push(x).len() implies p.push(x)[i] != me by {
                        if i < p.len() {
                            assert(p[i] == p.push(x)[i]);
                        }
                    }
                }
            }
        }
    }
}

/// A node is never its own neighbour: a node that has not yet been initialised,
/// and has no neighbours, takes from an `init` neighbours that never include the
/// id it takes.
pub proof fn lemma_init_excludes_self(n: NodeV, req: MessageV)
    requires
        !n.halted,
        n.id.len() == 0,
        n.neighbors.len() == 0,
        req.kind is Init,
        crate::message::body_value(req.fields, "in_reply_to"@, crate::message::Expect::U64) is Err,
    ensures
        !node_step(n, req).0.neighbors.contains(node_step(n, req).0.id),
{
    if let Ok(idv) = crate::message::body_value(req.fields, "node_id"@, crate::message::Expect::Str) {
        let me = idv.as_str()->0;
        if let Ok(arr) = crate::message::body_value(req.fields, "node_ids"@, crate::message::Expect::Array) {
            lemma_peers_exclude(arr.as_array()->0, me);
            assert(n.neighbors + peers(arr.as_array()->0, me).0 =~= peers(arr.as_array()->0, me).0);
        }
    }
}

/// The `WORKLOAD` setting picks the workload: exactly the setting `g-counter`
/// picks the grow-only counter; any other setting, and no setting, picks
/// broadcast.
pub proof fn lemma_workload_setting(s: Seq<char>)
    ensures
        workload_of(None) == Workload::Broadcast,
        workload_of(Some(s)) == Workload::GCounter <==> s == "g-counter"@,
        workload_of(Some(s)) == Workload::Broadcast <==> s != "g-counter"@,
{
}

/// A broadcast of a message equal to any message the node holds, wherever it
/// stands among them, changes nothing in the node and only acknowledges: the
/// message is neither kept again nor sent on.
pub proof fn lemma_broadcast_of_held_message(n: NodeV, b: MessageV, v: JsonV, i: int)
    requires
        !n.halted,
        n.id.len() > 0,
        b.kind is Broadcast,
        crate::message::body_value(b.fields, "in_reply_to"@, crate::message::Expect::U64) is Err,
        lookup(b.fields, "message"@) == Some(v),
        0 <= i < n.messages.len(),
        json_eq(n.messages[i], v),
    ensures
        node_step(n, b).0 == n,
        node_step(n, b).1 == reply_v(n, b, Seq::empty()),
{
    assert(seen(n.messages, v));
}

/// Whether no two messages of `ms` are equal (see [`json_eq`]).
pub open spec fn distinct_messages(ms: Seq<JsonV>) -> bool {
    forall|i: int, j: int| 0 <= i < j < ms.len() ==> !json_eq(#[trigger] ms[i], #[trigger] ms[j])
}

/// The broadcast messages never hold two equal values: when no two messages a
/// node holds are equal, none are after any message it takes.
pub proof fn lemma_messages_stay_distinct(n: NodeV, m: MessageV)
    requires
        distinct_messages(n.messages),
    ensures
        distinct_messages(node_step(n, m).0.messages),
{
    lemma_step_messages(n, m);
    let ms2 = node_step(n, m).0.messages;
    if ms2 != n.messages {
        let v = choose|v: JsonV| !seen(n.messages, v) && ms2 == #[trigger] n.messages.push(v);
        assert forall|i: int, j: int| 0 <= i < j < ms2.len() implies !json_eq(#[trigger] ms2[i], #[trigger] ms2[j]) by {
            if j == n.messages.len() {
                assert(ms2[j] == v);
                assert(ms2[i] == n.messages[i]);
                if json_eq(n.messages[i], v) {
                    assert(seen(n.messages, v));
                }
            } else {
                assert(ms2[i] == n.messages[i]);
                assert(ms2[j] == n.messages[j]);
            }
        }
    }
}

} // verus!
