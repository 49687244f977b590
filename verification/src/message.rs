use vstd::prelude::*;
use crate::json::{Json, JsonV, Fields, fields_view, lookup, get_field, owned};
use crate::text::str_eq;

verus! {

/// The kinds of message that the node knows, by the `type` field of their body.
#[derive(Debug, PartialEq)]
pub enum MessageType {
    Init,
    Echo,
    Error,
    Generate,
    Topology,
    Broadcast,
    Read,
    Add,
    Send,
    Poll,
    CommitOffsets,
    ListCommittedOffsets,
    /// Any other type, by its name.
    Default(String),
}

/// The message type that `name` names, if it is one of the known ones.
pub open spec fn known_type(name: Seq<char>) -> Option<MessageType> {
    if name == "init"@ {
        Some(MessageType::Init)
    } else if name == "echo"@ {
        Some(MessageType::Echo)
    } else if name == "error"@ {
        Some(MessageType::Error)
    } else if name == "generate"@ {
        Some(MessageType::Generate)
    } else if name == "topology"@ {
        Some(MessageType::Topology)
    } else if name == "broadcast"@ {
        Some(MessageType::Broadcast)
    } else if name == "read"@ {
        Some(MessageType::Read)
    } else if name == "add"@ {
        Some(MessageType::Add)
    } else if name == "send"@ {
        Some(MessageType::Send)
    } else if name == "poll"@ {
        Some(MessageType::Poll)
    } else if name == "commit_offsets"@ {
        Some(MessageType::CommitOffsets)
    } else if name == "list_committed_offsets"@ {
        Some(MessageType::ListCommittedOffsets)
    } else {
        None
    }
}

impl MessageType {
    /// The name of the type, as the `type` field of a body holds it.
    pub open spec fn spec_name(self) -> Seq<char> {
        match self {
            MessageType::Init => "init"@,
            MessageType::Echo => "echo"@,
            MessageType::Error => "error"@,
            MessageType::Generate => "generate"@,
            MessageType::Topology => "topology"@,
            MessageType::Broadcast => "broadcast"@,
            MessageType::Read => "read"@,
            MessageType::Add => "add"@,
            MessageType::Send => "send"@,
            MessageType::Poll => "poll"@,
            MessageType::CommitOffsets => "commit_offsets"@,
            MessageType::ListCommittedOffsets => "list_committed_offsets"@,
            MessageType::Default(s) => s@,
        }
    }

    /// The name of the type, as the `type` field of a body holds it.
    pub fn name(&self) -> (r: String)
        ensures
            r@ == self.spec_name(),
    {
        match self {
            MessageType::Init => owned("init"),
            MessageType::Echo => owned("echo"),
            MessageType::Error => owned("error"),
            MessageType::Generate => owned("generate"),
            MessageType::Topology => owned("topology"),
            MessageType::Broadcast => owned("broadcast"),
            MessageType::Read => owned("read"),
            MessageType::Add => owned("add"),
            MessageType::Send => owned("send"),
            MessageType::Poll => owned("poll"),
            MessageType::CommitOffsets => owned("commit_offsets"),
            MessageType::ListCommittedOffsets => owned("list_committed_offsets"),
            MessageType::Default(s) => s.clone(),
        }
    }

    /// The type that a `type` field naming `name` stands for: a known type, or
    /// `Default` with the name.
    pub fn from_name(name: &str) -> (r: MessageType)
        ensures
            known_type(name@) matches Some(t) ==> r == t,
            known_type(name@) is None ==> (r matches MessageType::Default(s) && s@ == name@),
    {
        if str_eq(name, "init") {
            MessageType::Init
        } else if str_eq(name, "echo") {
            MessageType::Echo
        } else if str_eq(name, "error") {
            MessageType::Error
        } else if str_eq(name, "generate") {
            MessageType::Generate
        } else if str_eq(name, "topology") {
            MessageType::Topology
        } else if str_eq(name, "broadcast") {
            MessageType::Broadcast
        } else if str_eq(name, "read") {
            MessageType::Read
        } else if str_eq(name, "add") {
            MessageType::Add
        } else if str_eq(name, "send") {
            MessageType::Send
        } else if str_eq(name, "poll") {
            MessageType::Poll
        } else if str_eq(name, "commit_offsets") {
            MessageType::CommitOffsets
        } else if str_eq(name, "list_committed_offsets") {
            MessageType::ListCommittedOffsets
        } else {
            MessageType::Default(owned(name))
        }
    }

    /// The type of the reply to a message of this type: its name and `_ok`.
    pub fn reply_type(&self) -> (r: String)
        ensures
            r@ == self.spec_name() + "_ok"@,
    {
        let mut s = self.name();
        s.append("_ok");
        s
    }
}

/// The body of a message: its type and the rest of its fields. A body read from
/// JSON text never repeats a field name; where `extra` does, its first field of
/// that name is the one read (see [`lookup`](crate::json::lookup)).
#[derive(Debug, PartialEq)]
pub struct MessageBody {
    pub kind: MessageType,
    pub extra: Vec<(String, Json)>,
}

/// A message as it comes in: source, destination and body.
#[derive(Debug, PartialEq)]
pub struct Message {
    pub src: String,
    pub dest: String,
    pub body: MessageBody,
}

/// A message as a mathematical value.
pub struct MessageV {
    pub src: Seq<char>,
    pub dest: Seq<char>,
    pub kind: MessageType,
    pub fields: Fields,
}

impl Message {
    /// The message as a mathematical value.
    pub open spec fn spec_view(&self) -> MessageV {
        MessageV {
            src: self.src@,
            dest: self.dest@,
            kind: self.body.kind,
            fields: fields_view(self.body.extra@),
        }
    }
}

/// A message as the node sends it: the body holds its `type` field with the others.
#[derive(Debug, PartialEq)]
pub struct Envelope {
    pub src: String,
    pub dest: String,
    pub body: Vec<(String, Json)>,
}

/// An outgoing message as a mathematical value.
pub struct EnvelopeV {
    pub src: Seq<char>,
    pub dest: Seq<char>,
    pub body: Fields,
}

impl Envelope {
    /// The outgoing message as a mathematical value.
    pub open spec fn spec_view(&self) -> EnvelopeV {
        EnvelopeV { src: self.src@, dest: self.dest@, body: fields_view(self.body@) }
    }
}

/// Outgoing messages as mathematical values.
pub open spec fn envelopes_view(s: Seq<Envelope>) -> Seq<EnvelopeV> {
    Seq::new(s.len(), |i: int| s[i].spec_view())
}

/// What a field of a body is expected to hold.
#[derive(Debug, PartialEq, Eq, Structural, Clone, Copy)]
pub enum Expect {
    U64,
    Str,
    Array,
    Object,
}

/// Whether `v` holds what `e` expects.
pub open spec fn expect_holds(e: Expect, v: JsonV) -> bool {
    match e {
        Expect::U64 => v.as_u64() is Some,
        Expect::Str => v.as_str() is Some,
        Expect::Array => v.as_array() is Some,
        Expect::Object => v.as_object() is Some,
    }
}

/// Why a field could not be taken from a body.
#[derive(Debug, PartialEq)]
pub enum BodyError {
    /// The body has no field of this name.
    MissingField(String),
    /// The field holds something else than what was expected.
    WrongType(String, Expect),
}

/// The name of the type that the error texts give for what `e` expects.
pub open spec fn expect_name(e: Expect) -> Seq<char> {
    match e {
        Expect::U64 => "u64"@,
        Expect::Str => "&str"@,
        Expect::Array => "&alloc::vec::Vec<serde_json::value::Value>"@,
        Expect::Object => "&serde_json::map::Map<alloc::string::String, serde_json::value::Value>"@,
    }
}

/// What taking the field `key`, expected to hold `expect`, from `fields` gives:
/// the value, or the error with the key and what was expected.
pub open spec fn body_value(fields: Fields, key: Seq<char>, expect: Expect) -> Result<
    JsonV,
    (Seq<char>, Option<Expect>),
> {
    match lookup(fields, key) {
        None => Err((key, None)),
        Some(v) => if expect_holds(expect, v) {
            Ok(v)
        } else {
            Err((key, Some(expect)))
        },
    }
}

/// A body error as the key and, for a wrong type, what was expected.
pub open spec fn body_error_view(e: BodyError) -> (Seq<char>, Option<Expect>) {
    match e {
        BodyError::MissingField(k) => (k@, None),
        BodyError::WrongType(k, x) => (k@, Some(x)),
    }
}

/// A result of taking a field, as a mathematical value.
pub open spec fn field_result_view(r: Result<&Json, BodyError>) -> Result<
    JsonV,
    (Seq<char>, Option<Expect>),
> {
    match r {
        Ok(v) => Ok(v@),
        Err(e) => Err(body_error_view(e)),
    }
}

/// The error code that stands for a reply that could not be read: crash.
pub const CRASH_CODE: u64 = 13;

/// What a reply says of its request: `None` for success, or the error code and text.
pub open spec fn rpc_error(kind: MessageType, fields: Fields) -> Option<(u64, Seq<char>)> {
    if !(kind is Error) {
        None
    } else {
        match body_value(fields, "code"@, Expect::U64) {
            Err(e) => Some((CRASH_CODE, error_text(e))),
            Ok(c) => if c.as_u64() == Some(0u64) {
                None
            } else {
                match body_value(fields, "text"@, Expect::Str) {
                    Err(e) => Some((CRASH_CODE, error_text(e))),
                    Ok(t) => Some((c.as_u64()->0, t.as_str()->0)),
                }
            },
        }
    }
}

/// The text of a body error given as a key and what was expected. For a missing
/// field the text ends after `field`: it does not go on with `, message: ` and a
/// debug rendering of the message, since that rendering lists the body fields in
/// the order of a hash map, which changes from one process to the next, and so
/// is no function of the message.
pub open spec fn error_text(e: (Seq<char>, Option<Expect>)) -> Seq<char> {
    match e.1 {
        None => "Message body should contain '"@ + e.0 + "' field"@,
        Some(x) => "'"@ + e.0 + "' value type expect to be '"@ + expect_name(x) + "'"@,
    }
}

impl BodyError {
    /// The text of the error: see [`error_text`]. For a missing field it ends
    /// after `field`, without a rendering of the message it was taken from.
    pub fn text(&self) -> (r: String)
        ensures
            r@ == error_text(body_error_view(*self)),
    {
        match self {
            BodyError::MissingField(k) => {
                let mut s = owned("Message body should contain '");
                s.append(k.as_str());
                s.append("' field");
                s
            },
            BodyError::WrongType(k, x) => {
                let mut s = owned("'");
                s.append(k.as_str());
                s.append("' value type expect to be '");
                match x {
                    Expect::U64 => s.append("u64"),
                    Expect::Str => s.append("&str"),
                    Expect::Array => s.append("&alloc::vec::Vec<serde_json::value::Value>"),
                    Expect::Object => s.append(
                        "&serde_json::map::Map<alloc::string::String, serde_json::value::Value>",
                    ),
                }
                s.append("'");
                s
            },
        }
    }
}

impl Message {
    /// The fields of the body besides its type, as mathematical values.
    pub open spec fn fields(&self) -> Fields {
        fields_view(self.body.extra@)
    }

    /// The field `key` of the body, which must hold what `expect` says.
    pub fn get_body_value(&self, key: &str, expect: Expect) -> (r: Result<&Json, BodyError>)
        ensures
            field_result_view(r) == body_value(fields_view(self.body.extra@), key@, expect),
    {
        match get_field(&self.body.extra, key) {
            None => Err(BodyError::MissingField(owned(key))),
            Some(v) => {
                let ok = match expect {
                    Expect::U64 => v.as_u64().is_some(),
                    Expect::Str => v.as_str().is_some(),
                    Expect::Array => v.as_array().is_some(),
                    Expect::Object => v.as_object().is_some(),
                };
                if ok {
                    Ok(v)
                } else {
                    Err(BodyError::WrongType(owned(key), expect))
                }
            },
        }
    }

    /// The field `key` of the body, whatever it holds.
    pub fn get_body_value_raw(&self, key: &str) -> (r: Result<&Json, BodyError>)
        ensures
            field_result_view(r) == match lookup(fields_view(self.body.extra@), key@) {
                Some(v) => Ok(v),
                None => Err((key@, None::<Expect>)),
            },
    {
        match get_field(&self.body.extra, key) {
            None => Err(BodyError::MissingField(owned(key))),
            Some(v) => Ok(v),
        }
    }

    /// What this message, taken as a reply, says of its request: `None` for
    /// success, or the error code and text of an `error` reply.
    pub fn is_rpc_error(&self) -> (r: Option<(u64, String)>)
        ensures
            r matches Some((c, t)) ==> rpc_error(self.body.kind, fields_view(self.body.extra@))
                == Some((c, t@)),
            r is None ==> rpc_error(self.body.kind, fields_view(self.body.extra@)) is None,
    {
        if !matches!(self.body.kind, MessageType::Error) {
            return None;
        }
        let code = match self.get_body_value("code", Expect::U64) {
            Ok(code) => code.as_u64().unwrap(),
            Err(err) => return Some((CRASH_CODE, err.text())),
        };
        if code == 0 {
            return None;
        }
        let text = match self.get_body_value("text", Expect::Str) {
            Ok(text) => text.as_str().unwrap().clone(),
            Err(err) => return Some((CRASH_CODE, err.text())),
        };
        Some((code, text))
    }
}

/// Naming a known type and reading the name back gives the type.
pub proof fn lemma_known_type_round_trip(t: MessageType)
    requires
        !(t is Default),
    ensures
        known_type(t.spec_name()) == Some(t),
{
    reveal_known_names();
}

/// A `Default` type that does not name a known type reads back as itself.
pub proof fn lemma_default_type_round_trip(t: MessageType)
    requires
        t is Default,
        known_type(t.spec_name()) is None,
    ensures
        t.spec_name() == t->Default_0@,
{
}

/// Reading a name and naming the type that it gives back gives the name.
pub proof fn lemma_name_round_trip(name: Seq<char>)
    ensures
        known_type(name) matches Some(t) ==> t.spec_name() == name && !(t is Default),
{
}

proof fn reveal_known_names()
    ensures
        "init"@ == seq!['i', 'n', 'i', 't'],
        "echo"@ == seq!['e', 'c', 'h', 'o'],
        "error"@ == seq!['e', 'r', 'r', 'o', 'r'],
        "generate"@ == seq!['g', 'e', 'n', 'e', 'r', 'a', 't', 'e'],
        "topology"@ == seq!['t', 'o', 'p', 'o', 'l', 'o', 'g', 'y'],
        "broadcast"@ == seq!['b', 'r', 'o', 'a', 'd', 'c', 'a', 's', 't'],
        "read"@ == seq!['r', 'e', 'a', 'd'],
        "add"@ == seq!['a', 'd', 'd'],
        "send"@ == seq!['s', 'e', 'n', 'd'],
        "poll"@ == seq!['p', 'o', 'l', 'l'],
        "commit_offsets"@ == seq!['c', 'o', 'm', 'm', 'i', 't', '_', 'o', 'f', 'f', 's', 'e', 't', 's'],
        "list_committed_offsets"@ == seq!['l', 'i', 's', 't', '_', 'c', 'o', 'm', 'm', 'i', 't', 't', 'e', 'd', '_', 'o', 'f', 'f', 's', 'e', 't', 's'],
{
    reveal_strlit("init");
    reveal_strlit("echo");
    reveal_strlit("error");
    reveal_strlit("generate");
    reveal_strlit("topology");
    reveal_strlit("broadcast");
    reveal_strlit("read");
    reveal_strlit("add");
    reveal_strlit("send");
    reveal_strlit("poll");
    reveal_strlit("commit_offsets");
    reveal_strlit("list_committed_offsets");
}

} // verus!
