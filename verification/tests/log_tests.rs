use gossip_nodes::json::{copy_fields, get_field, Json};
use gossip_nodes::kv::{read_result, write_result, KVType, Progress, Transaction, KV};
use gossip_nodes::log::{AppendPhase, Log, LogEntry};
use gossip_nodes::message::{BodyError, Message, MessageBody, MessageType};
use gossip_nodes::node::RpcError;

fn s(x: &str) -> String {
    x.to_string()
}

fn reply(kind: &str, fields: Vec<(&str, Json)>) -> Message {
    Message {
        src: s("lin-kv"),
        dest: s("n1"),
        body: MessageBody {
            kind: MessageType::from_name(kind),
            extra: fields.into_iter().map(|(k, v)| (s(k), v)).collect(),
        },
    }
}

fn missing() -> Message {
    reply("error", vec![("code", Json::UInt(20)), ("text", Json::Str(s("key does not exist")))])
}

#[test]
fn entries_round_trip() {
    let e = LogEntry { value: Json::Str(s("m")), is_committed: true };
    let j = e.to_json();
    assert_eq!(
        j,
        Json::Object(vec![(s("value"), Json::Str(s("m"))), (s("is_committed"), Json::Bool(true))])
    );
    assert_eq!(
        LogEntry::from_json(&j),
        Some(LogEntry { value: Json::Str(s("m")), is_committed: true })
    );
}

#[test]
fn entries_from_arrays_and_bad_values() {
    let arr = Json::Array(vec![Json::UInt(1), Json::Bool(false)]);
    assert_eq!(LogEntry::from_json(&arr), Some(LogEntry { value: Json::UInt(1), is_committed: false }));
    assert_eq!(LogEntry::from_json(&Json::Array(vec![Json::UInt(1)])), None);
    assert_eq!(
        LogEntry::from_json(&Json::Array(vec![Json::UInt(1), Json::Bool(true), Json::Null])),
        None
    );
    assert_eq!(
        LogEntry::from_json(&Json::Object(vec![(s("value"), Json::UInt(1))])),
        None
    );
    assert_eq!(
        LogEntry::from_json(&Json::Object(vec![
            (s("value"), Json::UInt(1)),
            (s("is_committed"), Json::UInt(1))
        ])),
        None
    );
    assert_eq!(LogEntry::from_json(&Json::UInt(3)), None);
}

#[test]
fn kv_requests() {
    let kv = KV::new_seq();
    assert_eq!(kv.kind.service(), "seq-kv");
    assert_eq!(KVType::Linearizable.service(), "lin-kv");
    let r = kv.read("k");
    assert_eq!(r.dest, "seq-kv");
    assert_eq!(r.body, vec![(s("type"), Json::Str(s("read"))), (s("key"), Json::Str(s("k")))]);
    let w = KV::new_lin().write("k", Json::UInt(1));
    assert_eq!(w.dest, "lin-kv");
    assert_eq!(get_field(&w.body, "type"), Some(&Json::Str(s("write"))));
    assert_eq!(get_field(&w.body, "value"), Some(&Json::UInt(1)));
    let c = kv.compare_and_swap("k", Json::UInt(1), Json::UInt(2));
    assert_eq!(get_field(&c.body, "type"), Some(&Json::Str(s("cas"))));
    assert_eq!(get_field(&c.body, "from"), Some(&Json::UInt(1)));
    assert_eq!(get_field(&c.body, "to"), Some(&Json::UInt(2)));
    assert_eq!(get_field(&c.body, "create_if_not_exists"), Some(&Json::Bool(true)));
}

#[test]
fn kv_results() {
    assert_eq!(read_result(reply("read_ok", vec![("value", Json::UInt(5))])), Ok(Json::UInt(5)));
    assert_eq!(read_result(missing()), Err(RpcError::Rpc(20, s("key does not exist"))));
    assert_eq!(
        read_result(reply("read_ok", vec![])),
        Err(RpcError::Body(BodyError::MissingField(s("value"))))
    );
    assert_eq!(write_result(reply("write_ok", vec![])), Ok(()));
    assert_eq!(write_result(missing()), Err(RpcError::Rpc(20, s("key does not exist"))));
}

#[test]
fn transactions() {
    let t = Transaction::new(KV::new_lin());
    let r = t.read(12);
    assert_eq!(get_field(&r.body, "key"), Some(&Json::Str(s("12"))));
    assert_eq!(Transaction::read_value(reply("read_ok", vec![("value", Json::UInt(5))])), Json::UInt(5));
    assert_eq!(Transaction::read_value(missing()), Json::Null);
    let w = t.write(7, &Json::Bool(true));
    assert_eq!(get_field(&w.body, "key"), Some(&Json::Str(s("7"))));
    assert_eq!(get_field(&w.body, "value"), Some(&Json::Bool(true)));
}

#[test]
fn append_steps() {
    let log = Log::new(KV::new_lin());
    let (mut a, r) = log.append("k", Json::UInt(42));
    assert_eq!(get_field(&r.body, "key"), Some(&Json::Str(s("offset-k"))));
    match a.on_reply(&log, reply("read_ok", vec![("value", Json::UInt(u64::MAX))])) {
        Progress::Call(c) => assert_eq!(get_field(&c.body, "to"), Some(&Json::UInt(0))),
        _ => panic!("expected a request"),
    }
    assert_eq!(a.phase, AppendPhase::ClaimOffset(u64::MAX));
    match a.on_reply(&log, reply("cas_ok", vec![])) {
        Progress::Call(c) => assert_eq!(
            get_field(&c.body, "key"),
            Some(&Json::Str(s("entries-k-18446744073709551615")))
        ),
        _ => panic!("expected a request"),
    }
    assert_eq!(a.on_reply(&log, missing()), Progress::Abandoned);
}

#[test]
fn commit_skips_the_largest_offset() {
    let log = Log::new(KV::new_lin());
    let (c, p) = log.commit(vec![(s("k"), u64::MAX)]);
    assert_eq!(p, Progress::Finished);
    assert_eq!(c.index, 1);
}

#[test]
fn read_of_no_logs_finishes() {
    let log = Log::new(KV::new_lin());
    let (r, p) = log.read(vec![]);
    assert_eq!(p, Progress::Finished);
    assert!(r.result.is_empty());
    let (c, p) = log.read_committed(vec![]);
    assert_eq!(p, Progress::Finished);
    assert!(c.result.is_empty());
}

/// A store as the services keep one: answers a request body and changes.
fn serve(store: &mut Vec<(String, Json)>, body: &Vec<(String, Json)>) -> Message {
    let kind = match get_field(body, "type") {
        Some(Json::Str(t)) => t.clone(),
        _ => panic!("request without a type"),
    };
    let key = match get_field(body, "key") {
        Some(Json::Str(k)) => k.clone(),
        _ => panic!("request without a key"),
    };
    let held = store.iter().position(|(k, _)| *k == key);
    match kind.as_str() {
        "read" => match held {
            Some(i) => reply("read_ok", vec![("value", store[i].1.copy_value())]),
            None => missing(),
        },
        "write" => {
            let v = get_field(body, "value").unwrap().copy_value();
            match held {
                Some(i) => store[i].1 = v,
                None => store.push((key, v)),
            }
            reply("write_ok", vec![])
        }
        "cas" => {
            let from = get_field(body, "from").unwrap().copy_value();
            let to = get_field(body, "to").unwrap().copy_value();
            match held {
                Some(i) if store[i].1 != from => reply(
                    "error",
                    vec![("code", Json::UInt(22)), ("text", Json::Str(s("current value does not match")))],
                ),
                Some(i) => {
                    store[i].1 = to;
                    reply("cas_ok", vec![])
                }
                None => {
                    store.push((key, to));
                    reply("cas_ok", vec![])
                }
            }
        }
        _ => panic!("unknown request"),
    }
}

fn body_of(p: &Progress) -> Vec<(String, Json)> {
    match p {
        Progress::Call(r) => copy_fields(&r.body),
        _ => panic!("expected a request"),
    }
}

/// Appends `v` to `k` against `store`, and gives the offset it got.
fn append_to(store: &mut Vec<(String, Json)>, log: &Log, k: &str, v: Json) -> u64 {
    let (mut a, r) = log.append(k, v);
    let mut p = Progress::Call(r);
    while let Progress::Call(_) = p {
        let answer = serve(store, &body_of(&p));
        p = a.on_reply(log, answer);
    }
    assert_eq!(p, Progress::Finished);
    match a.phase {
        AppendPhase::Appended(o) => o,
        _ => panic!("append not finished"),
    }
}

#[test]
fn appends_one_after_another_get_consecutive_offsets() {
    let log = Log::new(KV::new_lin());
    let mut store = vec![];
    assert_eq!(append_to(&mut store, &log, "k", Json::UInt(10)), 0);
    assert_eq!(append_to(&mut store, &log, "k", Json::UInt(11)), 1);
    assert_eq!(append_to(&mut store, &log, "k", Json::UInt(12)), 2);
    assert_eq!(append_to(&mut store, &log, "j", Json::UInt(13)), 0);
}

#[test]
fn interleaved_appends_get_different_offsets() {
    let log = Log::new(KV::new_lin());
    let mut store = vec![];
    let (mut a, ra) = log.append("k", Json::UInt(1));
    let (mut b, rb) = log.append("k", Json::UInt(2));
    // Both read the offset before either claims it.
    let pa = a.on_reply(&log, serve(&mut store, &ra.body));
    let pb = b.on_reply(&log, serve(&mut store, &rb.body));
    assert_eq!(a.phase, AppendPhase::ClaimOffset(0));
    assert_eq!(b.phase, AppendPhase::ClaimOffset(0));
    let pa = a.on_reply(&log, serve(&mut store, &body_of(&pa)));
    let mut pb = b.on_reply(&log, serve(&mut store, &body_of(&pb)));
    // The second claim fails and reads again.
    assert_eq!(b.phase, AppendPhase::ReadOffset);
    while let Progress::Call(_) = pb {
        let answer = serve(&mut store, &body_of(&pb));
        pb = b.on_reply(&log, answer);
    }
    let pa = a.on_reply(&log, serve(&mut store, &body_of(&pa)));
    assert_eq!(pa, Progress::Finished);
    assert_eq!(a.phase, AppendPhase::Appended(0));
    assert_eq!(b.phase, AppendPhase::Appended(1));
}

#[test]
fn append_then_poll_gives_the_message() {
    let log = Log::new(KV::new_lin());
    let mut store = vec![];
    append_to(&mut store, &log, "k", Json::UInt(5));
    let o = append_to(&mut store, &log, "k", Json::Str(s("m")));
    assert_eq!(o, 1);
    let (mut r, mut p) = log.read(vec![(s("k"), o)]);
    while let Progress::Call(_) = p {
        let answer = serve(&mut store, &body_of(&p));
        p = r.on_reply(&log, answer);
    }
    assert_eq!(p, Progress::Finished);
    assert_eq!(
        r.result,
        vec![(s("k"), Json::Array(vec![Json::Array(vec![Json::UInt(1), Json::Str(s("m"))])]))]
    );
}

/// Commits `k` up to `o` against `store`, and counts the writes it made.
fn commit_to(store: &mut Vec<(String, Json)>, log: &Log, k: &str, o: u64) -> usize {
    let (mut c, mut p) = log.commit(vec![(s(k), o)]);
    let mut writes = 0;
    while let Progress::Call(_) = p {
        let body = body_of(&p);
        if get_field(&body, "type") == Some(&Json::Str(s("write"))) {
            writes += 1;
        }
        let answer = serve(store, &body);
        p = c.on_reply(log, answer);
    }
    assert_eq!(p, Progress::Finished);
    writes
}

/// Lists the committed offset of `k` in `store`.
fn list_committed(store: &mut Vec<(String, Json)>, log: &Log, k: &str) -> Vec<(String, Json)> {
    let (mut r, mut p) = log.read_committed(vec![s(k)]);
    while let Progress::Call(_) = p {
        let answer = serve(store, &body_of(&p));
        p = r.on_reply(log, answer);
    }
    assert_eq!(p, Progress::Finished);
    r.result
}

#[test]
fn committing_twice_writes_nothing_more() {
    let log = Log::new(KV::new_lin());
    let mut store = vec![];
    for v in 0..3 {
        append_to(&mut store, &log, "k", Json::UInt(v));
    }
    assert_eq!(commit_to(&mut store, &log, "k", 1), 2);
    let after_first = copy_fields(&store);
    assert_eq!(commit_to(&mut store, &log, "k", 1), 0);
    assert_eq!(store, after_first);
}

#[test]
fn commit_then_list_gives_at_least_the_offset() {
    let log = Log::new(KV::new_lin());
    let mut store = vec![];
    for v in 0..4 {
        append_to(&mut store, &log, "k", Json::UInt(v));
    }
    commit_to(&mut store, &log, "k", 0);
    assert_eq!(list_committed(&mut store, &log, "k"), vec![(s("k"), Json::UInt(0))]);
    commit_to(&mut store, &log, "k", 2);
    // A commit of a lower offset lists the longer committed prefix.
    commit_to(&mut store, &log, "k", 1);
    assert_eq!(list_committed(&mut store, &log, "k"), vec![(s("k"), Json::UInt(2))]);
}
