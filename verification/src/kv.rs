use vstd::prelude::*;
use crate::json::{Json, JsonV, Fields, fields_view, lookup, owned, lemma_fields_view};
use crate::message::{Message, MessageType, BodyError, rpc_error};
use crate::node::{Node, RpcError};
use crate::text::{u64_to_string, decimal};

verus! {

/// The two key-value services of the network.
#[derive(Debug, PartialEq, Eq, Structural, Clone, Copy)]
pub enum KVType {
    /// The sequentially consistent store.
    Sequential,
    /// The linearizable store.
    Linearizable,
}

impl KVType {
    /// The node name of the service.
    pub open spec fn spec_service(self) -> Seq<char> {
        match self {
            KVType::Sequential => "seq-kv"@,
            KVType::Linearizable => "lin-kv"@,
        }
    }

    /// The node name of the service.
    pub fn service(&self) -> (r: String)
        ensures
            r@ == self.spec_service(),
    {
        match self {
            KVType::Sequential => owned("seq-kv"),
            KVType::Linearizable => owned("lin-kv"),
        }
    }
}

/// A request to a service: where it goes and its body.
#[derive(Debug, PartialEq)]
pub struct Request {
    pub dest: String,
    pub body: Vec<(String, Json)>,
}

impl Request {
    /// The request as its destination and the fields of its body.
    pub open spec fn spec_view(&self) -> (Seq<char>, Fields) {
        (self.dest@, fields_view(self.body@))
    }
}

/// Where a task that talks to a service stands after a step.
#[derive(Debug, PartialEq)]
pub enum Progress {
    /// It waits for the reply to this request.
    Call(Request),
    /// It has finished, with its result in its state.
    Finished,
    /// It has stopped without a result, because a reply held something that it
    /// cannot go on with: no reply goes out for it.
    Abandoned,
}

/// [`Progress`] as a mathematical value.
pub enum ProgressV {
    Call(Seq<char>, Fields),
    Finished,
    Abandoned,
}

impl Progress {
    /// The progress as a mathematical value.
    pub open spec fn spec_view(&self) -> ProgressV {
        match self {
            Progress::Call(r) => ProgressV::Call(r.dest@, fields_view(r.body@)),
            Progress::Finished => ProgressV::Finished,
            Progress::Abandoned => ProgressV::Abandoned,
        }
    }
}

/// The body of a read of `key`.
pub open spec fn read_body(key: Seq<char>) -> Fields {
    seq![("type"@, JsonV::Str("read"@)), ("key"@, JsonV::Str(key))]
}

/// The body of a write of `value` under `key`.
pub open spec fn write_body(key: Seq<char>, value: JsonV) -> Fields {
    seq![("type"@, JsonV::Str("write"@)), ("key"@, JsonV::Str(key)), ("value"@, value)]
}

/// The body of a compare-and-swap of `key` from `from` to `to`, which creates the
/// key when it is missing.
pub open spec fn cas_body(key: Seq<char>, from: JsonV, to: JsonV) -> Fields {
    seq![
        ("type"@, JsonV::Str("cas"@)),
        ("key"@, JsonV::Str(key)),
        ("from"@, from),
        ("to"@, to),
        ("create_if_not_exists"@, JsonV::Bool(true)),
    ]
}

/// What the reply to a read gives: the value, or `None` when the reply reports
/// an error or holds no value.
pub open spec fn read_outcome(kind: MessageType, fields: Fields) -> Option<JsonV> {
    if rpc_error(kind, fields) is Some {
        None
    } else {
        lookup(fields, "value"@)
    }
}

/// Whether the reply to a write or a compare-and-swap reports success.
pub open spec fn write_succeeded(kind: MessageType, fields: Fields) -> bool {
    rpc_error(kind, fields) is None
}

/// Whether a body has a `type` field, which every message sent must have.
pub open spec fn has_type(body: Fields) -> bool {
    lookup(body, "type"@) is Some
}

/// Whether the next request of a task, if it has one, has a `type` field.
pub open spec fn typed_progress(p: ProgressV) -> bool {
    match p {
        ProgressV::Call(_, body) => has_type(body),
        _ => true,
    }
}

/// The fields of the bodies of reads, writes and compare-and-swaps.
pub proof fn lemma_body_fields(key: Seq<char>, v: JsonV, from: JsonV, to: JsonV)
    ensures
        lookup(read_body(key), "type"@) == Some(JsonV::Str("read"@)),
        lookup(read_body(key), "key"@) == Some(JsonV::Str(key)),
        lookup(write_body(key, v), "type"@) == Some(JsonV::Str("write"@)),
        lookup(write_body(key, v), "key"@) == Some(JsonV::Str(key)),
        lookup(write_body(key, v), "value"@) == Some(v),
        lookup(cas_body(key, from, to), "type"@) == Some(JsonV::Str("cas"@)),
        lookup(cas_body(key, from, to), "key"@) == Some(JsonV::Str(key)),
        lookup(cas_body(key, from, to), "from"@) == Some(from),
        lookup(cas_body(key, from, to), "to"@) == Some(to),
        "read"@ != "write"@,
        "read"@ != "cas"@,
        "write"@ != "cas"@,
{
    reveal_strlit("type");
    reveal_strlit("key");
    reveal_strlit("value");
    reveal_strlit("from");
    reveal_strlit("to");
    reveal_strlit("read");
    reveal_strlit("write");
    reveal_strlit("cas");
    assert("type"@.len() != "key"@.len());
    assert("type"@[0] != "from"@[0]);
    assert("type"@.len() != "to"@.len());
    assert("type"@.len() != "value"@.len());
    assert("key"@.len() != "from"@.len());
    assert("key"@.len() != "to"@.len());
    assert("key"@.len() != "value"@.len());
    assert("from"@.len() != "to"@.len());
    assert("read"@.len() != "cas"@.len());
    assert("read"@.len() != "write"@.len());
    assert("write"@.len() != "cas"@.len());
    let r = read_body(key);
    assert(lookup(r.drop_first(), "key"@) == Some(JsonV::Str(key)));
    let w = write_body(key, v);
    assert(lookup(w.drop_first(), "key"@) == Some(JsonV::Str(key)));
    assert(lookup(w.drop_first().drop_first(), "value"@) == Some(v));
    assert(lookup(w.drop_first(), "value"@) == Some(v));
    let c = cas_body(key, from, to);
    assert(lookup(c.drop_first(), "key"@) == Some(JsonV::Str(key)));
    assert(lookup(c.drop_first().drop_first(), "from"@) == Some(from));
    assert(lookup(c.drop_first(), "from"@) == Some(from));
    assert(lookup(c.drop_first().drop_first().drop_first(), "to"@) == Some(to));
    assert(lookup(c.drop_first().drop_first(), "to"@) == Some(to));
    assert(lookup(c.drop_first(), "to"@) == Some(to));
}

/// Every read, write and compare-and-swap body has a `type` field.
pub proof fn lemma_bodies_typed()
    ensures
        forall|k: Seq<char>| #[trigger] has_type(read_body(k)),
        forall|k: Seq<char>, v: JsonV| #[trigger] has_type(write_body(k, v)),
        forall|k: Seq<char>, f: JsonV, t: JsonV| #[trigger] has_type(cas_body(k, f, t)),
{
    assert forall|k: Seq<char>| #[trigger] has_type(read_body(k)) by {
        lemma_body_fields(k, JsonV::Null, JsonV::Null, JsonV::Null);
    }
    assert forall|k: Seq<char>, v: JsonV| #[trigger] has_type(write_body(k, v)) by {
        lemma_body_fields(k, v, JsonV::Null, JsonV::Null);
    }
    assert forall|k: Seq<char>, f: JsonV, t: JsonV| #[trigger] has_type(cas_body(k, f, t)) by {
        lemma_body_fields(k, JsonV::Null, f, t);
    }
}

/// A client of one key-value service.
#[derive(Debug, PartialEq)]
pub struct KV {
    pub kind: KVType,
}

impl KV {
    /// A client of the sequentially consistent store.
    pub fn new_seq() -> (r: KV)
        ensures
            r.kind == KVType::Sequential,
    {
        KV { kind: KVType::Sequential }
    }

    /// A client of the linearizable store.
    pub fn new_lin() -> (r: KV)
        ensures
            r.kind == KVType::Linearizable,
    {
        KV { kind: KVType::Linearizable }
    }

    /// The request that reads `key`.
    pub fn read(&self, key: &str) -> (r: Request)
        ensures
            r.spec_view() == (self.kind.spec_service(), read_body(key@)),
    {
        let body = vec![
            (owned("type"), Json::Str(owned("read"))),
            (owned("key"), Json::Str(owned(key))),
        ];
        proof {
            lemma_fields_view(body@);
            assert(fields_view(body@) =~= read_body(key@));
        }
        Request { dest: self.kind.service(), body }
    }

    /// The request that writes `value` under `key`.
    pub fn write(&self, key: &str, value: Json) -> (r: Request)
        ensures
            r.spec_view() == (self.kind.spec_service(), write_body(key@, value@)),
    {
        let ghost v = value@;
        let body = vec![
            (owned("type"), Json::Str(owned("write"))),
            (owned("key"), Json::Str(owned(key))),
            (owned("value"), value),
        ];
        proof {
            lemma_fields_view(body@);
            assert(fields_view(body@) =~= write_body(key@, v));
        }
        Request { dest: self.kind.service(), body }
    }

    /// The request that swaps the value under `key` from `from` to `to`, and
    /// creates the key when it is missing.
    pub fn compare_and_swap(&self, key: &str, from: Json, to: Json) -> (r: Request)
        ensures
            r.spec_view() == (self.kind.spec_service(), cas_body(key@, from@, to@)),
    {
        let ghost f = from@;
        let ghost t = to@;
        let body = vec![
            (owned("type"), Json::Str(owned("cas"))),
            (owned("key"), Json::Str(owned(key))),
            (owned("from"), from),
            (owned("to"), to),
            (owned("create_if_not_exists"), Json::Bool(true)),
        ];
        proof {
            lemma_fields_view(body@);
            assert(fields_view(body@) =~= cas_body(key@, f, t));
        }
        Request { dest: self.kind.service(), body }
    }
}

/// What the reply to a read gives: the value, the error that the reply reports,
/// or the error that it holds no value.
pub fn read_result(reply: Message) -> (r: Result<Json, RpcError>)
    ensures
        r is Ok <==> read_outcome(reply.body.kind, reply.fields()) is Some,
        r matches Ok(v) ==> read_outcome(reply.body.kind, reply.fields()) == Some(v@),
        rpc_error(reply.body.kind, reply.fields()) matches Some((c, t)) ==> (r matches Err(
            RpcError::Rpc(c2, t2),
        ) && c2 == c && t2@ == t),
        (rpc_error(reply.body.kind, reply.fields()) is None && !(r is Ok)) ==> (r matches Err(
            RpcError::Body(BodyError::MissingField(k)),
        ) && k@ == "value"@),
{
    let message = Node::rpc_sync(reply)?;
    match message.get_body_value_raw("value") {
        Ok(v) => Ok(v.copy_value()),
        Err(e) => Err(RpcError::Body(e)),
    }
}

/// What the reply to a write or a compare-and-swap gives: success, or the error
/// that it reports.
pub fn write_result(reply: Message) -> (r: Result<(), RpcError>)
    ensures
        r is Ok <==> write_succeeded(reply.body.kind, reply.fields()),
        rpc_error(reply.body.kind, reply.fields()) matches Some((c, t)) ==> (r matches Err(
            RpcError::Rpc(c2, t2),
        ) && c2 == c && t2@ == t),
{
    Node::rpc_sync(reply)?;
    Ok(())
}

/// Transactions over the values of integer keys in one service.
#[derive(Debug, PartialEq)]
pub struct Transaction {
    pub kv: KV,
}

impl Transaction {
    /// Transactions over the store of `kv`.
    pub fn new(kv: KV) -> (r: Transaction)
        ensures
            r.kv == kv,
    {
        Transaction { kv }
    }

    /// The request that reads the value of `key`.
    pub fn read(&self, key: u64) -> (r: Request)
        ensures
            r.spec_view() == (self.kv.kind.spec_service(), read_body(decimal(key as nat))),
    {
        let k = u64_to_string(key);
        self.kv.read(k.as_str())
    }

    /// The value that the reply to a read gives, and null when the read failed.
    pub fn read_value(reply: Message) -> (r: Json)
        ensures
            r@ == match read_outcome(reply.body.kind, reply.fields()) {
                Some(v) => v,
                None => JsonV::Null,
            },
    {
        match read_result(reply) {
            Ok(v) => v,
            Err(_) => Json::Null,
        }
    }

    /// The request that writes `value` under `key`.
    pub fn write(&self, key: u64, value: &Json) -> (r: Request)
        ensures
            r.spec_view() == (self.kv.kind.spec_service(), write_body(decimal(key as nat), value@)),
    {
        let k = u64_to_string(key);
        self.kv.write(k.as_str(), value.copy_value())
    }
}

} // verus!
