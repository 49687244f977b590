use gossip_nodes::json::{get_field, Json};
use gossip_nodes::message::{BodyError, Envelope, Message, MessageBody, MessageType};
use gossip_nodes::node::{Node, RpcError, Workload};

fn s(x: &str) -> String {
    x.to_string()
}

fn message(src: &str, kind: MessageType, fields: Vec<(&str, Json)>) -> Message {
    Message {
        src: s(src),
        dest: s("n1"),
        body: MessageBody {
            kind,
            extra: fields.into_iter().map(|(k, v)| (s(k), v)).collect(),
        },
    }
}

fn reply(src: &str, kind: &str, to: u64, fields: Vec<(&str, Json)>) -> Message {
    let mut all = vec![("in_reply_to", Json::UInt(to))];
    all.extend(fields);
    message(src, MessageType::from_name(kind), all)
}

fn field<'a>(e: &'a Envelope, key: &str) -> &'a Json {
    get_field(&e.body, key).expect("field present")
}

fn text(x: &str) -> Json {
    Json::Str(s(x))
}

fn started(workload: Workload) -> Node {
    let mut node = Node::new(workload);
    let out = node.step(message(
        "c0",
        MessageType::Init,
        vec![
            ("msg_id", Json::UInt(1)),
            ("node_id", text("n1")),
            ("node_ids", Json::Array(vec![text("n1"), text("n2"), text("n3")])),
        ],
    ));
    assert_eq!(out.len(), 1);
    node
}

#[test]
fn init_sets_id_and_neighbours() {
    let mut node = Node::new(Workload::Broadcast);
    assert!(!node.is_init());
    let out = node.step(message(
        "c0",
        MessageType::Init,
        vec![
            ("msg_id", Json::UInt(1)),
            ("node_id", text("n1")),
            ("node_ids", Json::Array(vec![text("n1"), text("n2"), text("n3")])),
        ],
    ));
    assert!(node.is_init());
    assert_eq!(node.id, "n1");
    assert_eq!(node.neighbors, vec![s("n2"), s("n3")]);
    assert_eq!(out.len(), 1);
    assert_eq!(out[0].src, "n1");
    assert_eq!(out[0].dest, "c0");
    assert_eq!(field(&out[0], "in_reply_to"), &Json::UInt(1));
    assert_eq!(field(&out[0], "type"), &text("init_ok"));
    // A second init is ignored.
    let again = node.step(message(
        "c0",
        MessageType::Init,
        vec![("msg_id", Json::UInt(2)), ("node_id", text("n9")), ("node_ids", Json::Array(vec![]))],
    ));
    assert!(again.is_empty());
    assert_eq!(node.id, "n1");
}

#[test]
fn init_with_a_bad_node_list_sends_no_reply() {
    let mut node = Node::new(Workload::Broadcast);
    let out = node.step(message(
        "c0",
        MessageType::Init,
        vec![
            ("msg_id", Json::UInt(1)),
            ("node_id", text("n1")),
            ("node_ids", Json::Array(vec![text("n2"), Json::UInt(3), text("n4")])),
        ],
    ));
    assert!(out.is_empty());
    assert_eq!(node.id, "n1");
    assert_eq!(node.neighbors, vec![s("n2")]);
}

#[test]
fn messages_before_init_halt_the_node() {
    let mut node = Node::new(Workload::Broadcast);
    let out = node.step(message("c1", MessageType::Echo, vec![("msg_id", Json::UInt(1))]));
    assert!(out.is_empty());
    assert!(node.halted);
    let out = node.step(message(
        "c0",
        MessageType::Init,
        vec![("msg_id", Json::UInt(1)), ("node_id", text("n1")), ("node_ids", Json::Array(vec![]))],
    ));
    assert!(out.is_empty());
    assert!(!node.is_init());
}

#[test]
fn echo_replies_with_the_body() {
    let mut node = started(Workload::Broadcast);
    let out = node.step(message(
        "c1",
        MessageType::Echo,
        vec![("msg_id", Json::UInt(7)), ("echo", text("Please echo 35"))],
    ));
    assert_eq!(out.len(), 1);
    assert_eq!(out[0].dest, "c1");
    assert_eq!(field(&out[0], "echo"), &text("Please echo 35"));
    assert_eq!(field(&out[0], "msg_id"), &Json::UInt(7));
    assert_eq!(field(&out[0], "in_reply_to"), &Json::UInt(7));
    assert_eq!(field(&out[0], "type"), &text("echo_ok"));
}

#[test]
fn requests_without_msg_id_get_no_reply() {
    let mut node = started(Workload::Broadcast);
    let out = node.step(message("c1", MessageType::Topology, vec![]));
    assert!(out.is_empty());
}

#[test]
fn unknown_types_are_ignored() {
    let mut node = started(Workload::Broadcast);
    let out = node.step(message("c1", MessageType::from_name("txn"), vec![("msg_id", Json::UInt(1))]));
    assert!(out.is_empty());
}

#[test]
fn generate_gives_unique_ids() {
    let mut node = started(Workload::Broadcast);
    let a = node.step(message("c1", MessageType::Generate, vec![("msg_id", Json::UInt(2))]));
    let b = node.step(message("c1", MessageType::Generate, vec![("msg_id", Json::UInt(3))]));
    assert_eq!(field(&a[0], "id"), &text("n1#0"));
    assert_eq!(field(&b[0], "id"), &text("n1#1"));
    assert_eq!(field(&b[0], "type"), &text("generate_ok"));
}

#[test]
fn topology_is_acknowledged() {
    let mut node = started(Workload::Broadcast);
    let out = node.step(message("c1", MessageType::Topology, vec![("msg_id", Json::UInt(4))]));
    assert_eq!(out.len(), 1);
    assert_eq!(field(&out[0], "type"), &text("topology_ok"));
}

#[test]
fn broadcast_is_forwarded_once_and_read_back() {
    let mut node = started(Workload::Broadcast);
    let out = node.step(message(
        "c1",
        MessageType::Broadcast,
        vec![("msg_id", Json::UInt(2)), ("message", Json::UInt(7))],
    ));
    assert_eq!(out.len(), 3);
    assert_eq!(out[0].dest, "n2");
    assert_eq!(out[1].dest, "n3");
    assert_eq!(field(&out[0], "type"), &text("broadcast"));
    assert_eq!(field(&out[0], "message"), &Json::UInt(7));
    assert_eq!(field(&out[0], "msg_id"), &Json::UInt(0));
    assert_eq!(field(&out[1], "msg_id"), &Json::UInt(1));
    assert_eq!(out[2].dest, "c1");
    assert_eq!(field(&out[2], "type"), &text("broadcast_ok"));
    // Seen before: only acknowledged.
    let again = node.step(message(
        "n2",
        MessageType::Broadcast,
        vec![("msg_id", Json::UInt(9)), ("message", Json::UInt(7))],
    ));
    assert_eq!(again.len(), 1);
    assert_eq!(again[0].dest, "n2");
    // A new one from a neighbour is not sent back to it.
    let other = node.step(message(
        "n2",
        MessageType::Broadcast,
        vec![("msg_id", Json::UInt(10)), ("message", Json::UInt(8))],
    ));
    assert_eq!(other.len(), 2);
    assert_eq!(other[0].dest, "n3");
    // The acknowledgement of a forward is a reply that nothing waits on.
    let ack = node.step(reply("n2", "broadcast_ok", 0, vec![]));
    assert!(ack.is_empty());
    let read = node.step(message("c1", MessageType::Read, vec![("msg_id", Json::UInt(3))]));
    assert_eq!(read.len(), 1);
    assert_eq!(field(&read[0], "messages"), &Json::Array(vec![Json::UInt(7), Json::UInt(8)]));
    assert_eq!(field(&read[0], "type"), &text("read_ok"));
}

#[test]
fn counter_add_and_read() {
    let mut node = started(Workload::GCounter);
    let out = node.step(message("c1", MessageType::Add, vec![("msg_id", Json::UInt(5)), ("delta", Json::UInt(3))]));
    assert_eq!(out.len(), 1);
    assert_eq!(out[0].dest, "seq-kv");
    assert_eq!(field(&out[0], "type"), &text("read"));
    assert_eq!(field(&out[0], "key"), &text("g-counter-key"));
    assert_eq!(field(&out[0], "msg_id"), &Json::UInt(0));
    let out = node.step(reply("seq-kv", "read_ok", 0, vec![("value", Json::UInt(10))]));
    assert_eq!(field(&out[0], "type"), &text("cas"));
    assert_eq!(field(&out[0], "from"), &Json::UInt(10));
    assert_eq!(field(&out[0], "to"), &Json::UInt(13));
    assert_eq!(field(&out[0], "create_if_not_exists"), &Json::Bool(true));
    assert_eq!(field(&out[0], "msg_id"), &Json::UInt(1));
    // A failed swap reads again.
    let out = node.step(reply("seq-kv", "error", 1, vec![("code", Json::UInt(22)), ("text", text("mismatch"))]));
    assert_eq!(field(&out[0], "type"), &text("read"));
    assert_eq!(field(&out[0], "msg_id"), &Json::UInt(2));
    // A missing counter reads as zero.
    let out = node.step(reply("seq-kv", "error", 2, vec![("code", Json::UInt(20)), ("text", text("missing"))]));
    assert_eq!(field(&out[0], "from"), &Json::UInt(0));
    assert_eq!(field(&out[0], "to"), &Json::UInt(3));
    let out = node.step(reply("seq-kv", "cas_ok", 3, vec![]));
    assert_eq!(out.len(), 1);
    assert_eq!(out[0].dest, "c1");
    assert_eq!(field(&out[0], "type"), &text("add_ok"));
    assert_eq!(field(&out[0], "in_reply_to"), &Json::UInt(5));

    let out = node.step(message("c1", MessageType::Read, vec![("msg_id", Json::UInt(6))]));
    assert_eq!(field(&out[0], "type"), &text("write"));
    assert_eq!(field(&out[0], "key"), &text("sync-n1"));
    assert_eq!(field(&out[0], "value"), &Json::UInt(4));
    assert_eq!(field(&out[0], "msg_id"), &Json::UInt(5));
    let out = node.step(reply("seq-kv", "write_ok", 5, vec![]));
    assert_eq!(field(&out[0], "type"), &text("read"));
    assert_eq!(field(&out[0], "msg_id"), &Json::UInt(6));
    let out = node.step(reply("seq-kv", "read_ok", 6, vec![("value", Json::UInt(3))]));
    assert_eq!(out[0].dest, "c1");
    assert_eq!(field(&out[0], "value"), &Json::UInt(3));
    assert_eq!(field(&out[0], "type"), &text("read_ok"));
}

#[test]
fn add_without_delta_gets_no_reply() {
    let mut node = started(Workload::GCounter);
    let out = node.step(message("c1", MessageType::Add, vec![("msg_id", Json::UInt(5))]));
    assert!(out.is_empty());
}

fn entry(value: Json, committed: bool) -> Json {
    Json::Object(vec![(s("is_committed"), Json::Bool(committed)), (s("value"), value)])
}

#[test]
fn send_appends_at_the_next_offset() {
    let mut node = started(Workload::Broadcast);
    let out = node.step(message(
        "c1",
        MessageType::Send,
        vec![("msg_id", Json::UInt(5)), ("key", text("k1")), ("msg", Json::UInt(42))],
    ));
    assert_eq!(out[0].dest, "lin-kv");
    assert_eq!(field(&out[0], "type"), &text("read"));
    assert_eq!(field(&out[0], "key"), &text("offset-k1"));
    let out = node.step(reply("lin-kv", "error", 0, vec![("code", Json::UInt(20)), ("text", text("missing"))]));
    assert_eq!(field(&out[0], "type"), &text("cas"));
    assert_eq!(field(&out[0], "key"), &text("offset-k1"));
    assert_eq!(field(&out[0], "from"), &Json::UInt(0));
    assert_eq!(field(&out[0], "to"), &Json::UInt(1));
    let out = node.step(reply("lin-kv", "cas_ok", 1, vec![]));
    assert_eq!(field(&out[0], "type"), &text("write"));
    assert_eq!(field(&out[0], "key"), &text("entries-k1-0"));
    assert_eq!(
        field(&out[0], "value"),
        &Json::Object(vec![(s("value"), Json::UInt(42)), (s("is_committed"), Json::Bool(false))])
    );
    let out = node.step(reply("lin-kv", "write_ok", 2, vec![]));
    assert_eq!(out[0].dest, "c1");
    assert_eq!(field(&out[0], "type"), &text("send_ok"));
    assert_eq!(field(&out[0], "offset"), &Json::UInt(0));
}

#[test]
fn send_retries_a_lost_claim_and_stops_on_a_bad_offset() {
    let mut node = started(Workload::Broadcast);
    node.step(message(
        "c1",
        MessageType::Send,
        vec![("msg_id", Json::UInt(5)), ("key", text("k1")), ("msg", Json::UInt(42))],
    ));
    let out = node.step(reply("lin-kv", "read_ok", 0, vec![("value", Json::UInt(4))]));
    assert_eq!(field(&out[0], "from"), &Json::UInt(4));
    assert_eq!(field(&out[0], "to"), &Json::UInt(5));
    let out = node.step(reply("lin-kv", "error", 1, vec![("code", Json::UInt(22)), ("text", text("mismatch"))]));
    assert_eq!(field(&out[0], "type"), &text("read"));
    assert_eq!(field(&out[0], "key"), &text("offset-k1"));
    let out = node.step(reply("lin-kv", "read_ok", 2, vec![("value", text("four"))]));
    assert!(out.is_empty());
    assert!(node.callbacks.is_empty());
}

#[test]
fn poll_reads_from_the_offset() {
    let mut node = started(Workload::Broadcast);
    let out = node.step(message(
        "c1",
        MessageType::Poll,
        vec![("msg_id", Json::UInt(8)), ("offsets", Json::Object(vec![(s("k1"), Json::UInt(3))]))],
    ));
    assert_eq!(field(&out[0], "key"), &text("entries-k1-3"));
    let out = node.step(reply("lin-kv", "read_ok", 0, vec![("value", entry(Json::UInt(9), false))]));
    assert_eq!(field(&out[0], "key"), &text("entries-k1-4"));
    let out = node.step(reply("lin-kv", "read_ok", 1, vec![("value", entry(Json::UInt(10), true))]));
    assert_eq!(field(&out[0], "key"), &text("entries-k1-5"));
    let out = node.step(reply("lin-kv", "error", 2, vec![("code", Json::UInt(20)), ("text", text("missing"))]));
    assert_eq!(out[0].dest, "c1");
    assert_eq!(field(&out[0], "type"), &text("poll_ok"));
    assert_eq!(
        field(&out[0], "msgs"),
        &Json::Object(vec![(
            s("k1"),
            Json::Array(vec![
                Json::Array(vec![Json::UInt(3), Json::UInt(9)]),
                Json::Array(vec![Json::UInt(4), Json::UInt(10)]),
            ])
        )])
    );
}

#[test]
fn poll_of_nothing_replies_at_once() {
    let mut node = started(Workload::Broadcast);
    let out = node.step(message(
        "c1",
        MessageType::Poll,
        vec![("msg_id", Json::UInt(8)), ("offsets", Json::Object(vec![]))],
    ));
    assert_eq!(out.len(), 1);
    assert_eq!(field(&out[0], "msgs"), &Json::Object(vec![]));
}

#[test]
fn poll_with_a_bad_offset_gets_no_reply() {
    let mut node = started(Workload::Broadcast);
    let out = node.step(message(
        "c1",
        MessageType::Poll,
        vec![("msg_id", Json::UInt(8)), ("offsets", Json::Object(vec![(s("k1"), text("x"))]))],
    ));
    assert!(out.is_empty());
}

#[test]
fn commit_then_list_committed() {
    let mut node = started(Workload::Broadcast);
    let out = node.step(message(
        "c1",
        MessageType::CommitOffsets,
        vec![("msg_id", Json::UInt(8)), ("offsets", Json::Object(vec![(s("k1"), Json::UInt(1))]))],
    ));
    assert_eq!(field(&out[0], "key"), &text("entries-k1-0"));
    let out = node.step(reply("lin-kv", "read_ok", 0, vec![("value", entry(Json::UInt(9), true))]));
    assert_eq!(field(&out[0], "type"), &text("read"));
    assert_eq!(field(&out[0], "key"), &text("entries-k1-1"));
    let out = node.step(reply("lin-kv", "read_ok", 1, vec![("value", entry(Json::UInt(10), false))]));
    assert_eq!(field(&out[0], "type"), &text("write"));
    assert_eq!(field(&out[0], "key"), &text("entries-k1-1"));
    assert_eq!(
        field(&out[0], "value"),
        &Json::Object(vec![(s("value"), Json::UInt(10)), (s("is_committed"), Json::Bool(true))])
    );
    let out = node.step(reply("lin-kv", "write_ok", 2, vec![]));
    assert_eq!(out[0].dest, "c1");
    assert_eq!(field(&out[0], "type"), &text("commit_offsets_ok"));

    let out = node.step(message(
        "c1",
        MessageType::ListCommittedOffsets,
        vec![("msg_id", Json::UInt(9)), ("keys", Json::Array(vec![text("k1")]))],
    ));
    assert_eq!(field(&out[0], "key"), &text("entries-k1-0"));
    let out = node.step(reply("lin-kv", "read_ok", 3, vec![("value", entry(Json::UInt(9), true))]));
    let out2 = node.step(reply("lin-kv", "read_ok", 4, vec![("value", entry(Json::UInt(10), true))]));
    assert_eq!(field(&out[0], "key"), &text("entries-k1-1"));
    assert_eq!(field(&out2[0], "key"), &text("entries-k1-2"));
    let out = node.step(reply("lin-kv", "error", 5, vec![("code", Json::UInt(20)), ("text", text("missing"))]));
    assert_eq!(field(&out[0], "type"), &text("list_committed_offsets_ok"));
    assert_eq!(field(&out[0], "offsets"), &Json::Object(vec![(s("k1"), Json::UInt(1))]));
}

#[test]
fn list_committed_of_an_uncommitted_log_is_empty() {
    let mut node = started(Workload::Broadcast);
    node.step(message(
        "c1",
        MessageType::ListCommittedOffsets,
        vec![("msg_id", Json::UInt(9)), ("keys", Json::Array(vec![text("k1")]))],
    ));
    let out = node.step(reply("lin-kv", "read_ok", 0, vec![("value", entry(Json::UInt(9), false))]));
    assert_eq!(field(&out[0], "offsets"), &Json::Object(vec![]));
}

#[test]
fn replies_nothing_waits_on_are_ignored() {
    let mut node = started(Workload::Broadcast);
    let out = node.step(reply("lin-kv", "read_ok", 77, vec![]));
    assert!(out.is_empty());
}

#[test]
fn waiting_tasks_wait_on_distinct_ids() {
    let mut node = started(Workload::GCounter);
    node.step(message("c1", MessageType::Add, vec![("msg_id", Json::UInt(5)), ("delta", Json::UInt(1))]));
    node.step(message(
        "c2",
        MessageType::Send,
        vec![("msg_id", Json::UInt(6)), ("key", text("k")), ("msg", Json::UInt(1))],
    ));
    node.step(message("c3", MessageType::Read, vec![("msg_id", Json::UInt(7))]));
    let mut ids: Vec<u64> = node.callbacks.keys().copied().collect();
    ids.sort();
    assert_eq!(ids, vec![0, 1, 3]);
    assert_eq!(node.msg_id, 4);
}

#[test]
fn broadcast_of_an_equal_float_is_not_kept_twice() {
    let mut node = started(Workload::Broadcast);
    let first = node.step(message(
        "c1",
        MessageType::Broadcast,
        vec![("msg_id", Json::UInt(2)), ("message", Json::Float(0.0f64.to_bits()))],
    ));
    assert_eq!(first.len(), 3);
    let second = node.step(message(
        "c1",
        MessageType::Broadcast,
        vec![("msg_id", Json::UInt(3)), ("message", Json::Float((-0.0f64).to_bits()))],
    ));
    assert_eq!(second.len(), 1);
    let read = node.step(message("c1", MessageType::Read, vec![("msg_id", Json::UInt(4))]));
    assert_eq!(field(&read[0], "messages"), &Json::Array(vec![Json::Float(0.0f64.to_bits())]));
}

#[test]
fn rpc_error_text_gives_code_and_text() {
    assert_eq!(
        RpcError::Rpc(20, s("key does not exist")).text(),
        "Rpc error: code=20, text=key does not exist"
    );
    assert_eq!(
        RpcError::Body(BodyError::MissingField(s("value"))).text(),
        "Message body should contain 'value' field"
    );
    let failed = Node::rpc_sync(reply(
        "lin-kv",
        "error",
        1,
        vec![("code", Json::UInt(22)), ("text", text("mismatch"))],
    ));
    assert_eq!(failed.unwrap_err().text(), "Rpc error: code=22, text=mismatch");
}

#[test]
fn a_reply_resumes_its_task_once() {
    let mut node = started(Workload::GCounter);
    let out = node.step(message("c1", MessageType::Add, vec![("msg_id", Json::UInt(5)), ("delta", Json::UInt(3))]));
    assert_eq!(field(&out[0], "msg_id"), &Json::UInt(0));
    let first = node.step(reply("seq-kv", "read_ok", 0, vec![("value", Json::UInt(10))]));
    assert_eq!(first.len(), 1);
    assert_eq!(field(&first[0], "type"), &text("cas"));
    let again = node.step(reply("seq-kv", "read_ok", 0, vec![("value", Json::UInt(10))]));
    assert!(again.is_empty());
}

/// The sequential store answering a request that `e` carries, and changing.
fn serve_kv(store: &mut Vec<(String, Json)>, e: &Envelope) -> Message {
    let to = match get_field(&e.body, "msg_id") {
        Some(Json::UInt(m)) => *m,
        _ => panic!("request without an id"),
    };
    let key = match get_field(&e.body, "key") {
        Some(Json::Str(k)) => k.clone(),
        _ => panic!("request without a key"),
    };
    let held = store.iter().position(|(k, _)| *k == key);
    match get_field(&e.body, "type") {
        Some(Json::Str(t)) if t == "read" => match held {
            Some(i) => reply("seq-kv", "read_ok", to, vec![("value", store[i].1.copy_value())]),
            None => reply("seq-kv", "error", to, vec![("code", Json::UInt(20)), ("text", text("key does not exist"))]),
        },
        Some(Json::Str(t)) if t == "write" => {
            let v = field(e, "value").copy_value();
            match held {
                Some(i) => store[i].1 = v,
                None => store.push((key, v)),
            }
            reply("seq-kv", "write_ok", to, vec![])
        }
        Some(Json::Str(t)) if t == "cas" => {
            let from = field(e, "from").copy_value();
            let new = field(e, "to").copy_value();
            match held {
                Some(i) if store[i].1 != from => reply(
                    "seq-kv",
                    "error",
                    to,
                    vec![("code", Json::UInt(22)), ("text", text("current value does not match"))],
                ),
                Some(i) => {
                    store[i].1 = new;
                    reply("seq-kv", "cas_ok", to, vec![])
                }
                None => {
                    store.push((key, new));
                    reply("seq-kv", "cas_ok", to, vec![])
                }
            }
        }
        _ => panic!("unknown request"),
    }
}

#[test]
fn interleaved_adds_sum_up() {
    let mut node = started(Workload::GCounter);
    let mut store = vec![];
    let mut a = node.step(message("c1", MessageType::Add, vec![("msg_id", Json::UInt(5)), ("delta", Json::UInt(3))]));
    let mut b = node.step(message("c2", MessageType::Add, vec![("msg_id", Json::UInt(6)), ("delta", Json::UInt(4))]));
    // Both read before either swaps.
    let ra = serve_kv(&mut store, &a[0]);
    let rb = serve_kv(&mut store, &b[0]);
    a = node.step(ra);
    b = node.step(rb);
    assert_eq!(field(&a[0], "type"), &text("cas"));
    assert_eq!(field(&b[0], "type"), &text("cas"));
    let ra = serve_kv(&mut store, &a[0]);
    let rb = serve_kv(&mut store, &b[0]);
    a = node.step(ra);
    assert_eq!(a[0].dest, "c1");
    assert_eq!(field(&a[0], "type"), &text("add_ok"));
    b = node.step(rb);
    // The second swap failed: it reads again, and swaps from the new value.
    while b[0].dest == "seq-kv" {
        let r = serve_kv(&mut store, &b[0]);
        b = node.step(r);
    }
    assert_eq!(b[0].dest, "c2");
    assert_eq!(field(&b[0], "type"), &text("add_ok"));
    let mut read = node.step(message("c3", MessageType::Read, vec![("msg_id", Json::UInt(7))]));
    while read[0].dest == "seq-kv" {
        let r = serve_kv(&mut store, &read[0]);
        read = node.step(r);
    }
    assert_eq!(read[0].dest, "c3");
    assert_eq!(field(&read[0], "value"), &Json::UInt(7));
}
