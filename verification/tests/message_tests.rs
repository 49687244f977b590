use gossip_nodes::json::Json;
use gossip_nodes::message::{BodyError, Expect, Message, MessageBody, MessageType};

fn s(x: &str) -> String {
    x.to_string()
}

fn message(kind: MessageType, fields: Vec<(&str, Json)>) -> Message {
    Message {
        src: s("c1"),
        dest: s("n1"),
        body: MessageBody {
            kind,
            extra: fields.into_iter().map(|(k, v)| (s(k), v)).collect(),
        },
    }
}

#[test]
fn type_names_round_trip() {
    let known = vec![
        MessageType::Init,
        MessageType::Echo,
        MessageType::Error,
        MessageType::Generate,
        MessageType::Topology,
        MessageType::Broadcast,
        MessageType::Read,
        MessageType::Add,
        MessageType::Send,
        MessageType::Poll,
        MessageType::CommitOffsets,
        MessageType::ListCommittedOffsets,
    ];
    for t in known {
        let name = t.name();
        assert_eq!(MessageType::from_name(&name), t);
    }
    assert_eq!(MessageType::CommitOffsets.name(), "commit_offsets");
    assert_eq!(MessageType::ListCommittedOffsets.name(), "list_committed_offsets");
}

#[test]
fn unknown_type_names_are_kept() {
    assert_eq!(MessageType::from_name("read_ok"), MessageType::Default(s("read_ok")));
    assert_eq!(MessageType::Default(s("cas_ok")).name(), "cas_ok");
    assert_eq!(MessageType::from_name("Init"), MessageType::Default(s("Init")));
}

#[test]
fn reply_types() {
    assert_eq!(MessageType::Echo.reply_type(), "echo_ok");
    assert_eq!(MessageType::Default(s("foo")).reply_type(), "foo_ok");
}

#[test]
fn body_values() {
    let m = message(
        MessageType::Echo,
        vec![("msg_id", Json::UInt(3)), ("echo", Json::Str(s("hi")))],
    );
    assert_eq!(m.get_body_value("msg_id", Expect::U64), Ok(&Json::UInt(3)));
    assert_eq!(m.get_body_value("echo", Expect::Str), Ok(&Json::Str(s("hi"))));
    assert_eq!(
        m.get_body_value("echo", Expect::U64),
        Err(BodyError::WrongType(s("echo"), Expect::U64))
    );
    assert_eq!(
        m.get_body_value("missing", Expect::U64),
        Err(BodyError::MissingField(s("missing")))
    );
    assert_eq!(m.get_body_value_raw("echo"), Ok(&Json::Str(s("hi"))));
    assert_eq!(
        m.get_body_value_raw("nope"),
        Err(BodyError::MissingField(s("nope")))
    );
}

#[test]
fn body_error_texts() {
    assert_eq!(
        BodyError::MissingField(s("code")).text(),
        "Message body should contain 'code' field"
    );
    assert_eq!(
        BodyError::WrongType(s("text"), Expect::Str).text(),
        "'text' value type expect to be '&str'"
    );
    assert_eq!(
        BodyError::WrongType(s("code"), Expect::U64).text(),
        "'code' value type expect to be 'u64'"
    );
}

#[test]
fn rpc_errors() {
    let ok = message(MessageType::Default(s("read_ok")), vec![("value", Json::UInt(1))]);
    assert_eq!(ok.is_rpc_error(), None);
    let missing = message(
        MessageType::Error,
        vec![("code", Json::UInt(20)), ("text", Json::Str(s("key does not exist")))],
    );
    assert_eq!(missing.is_rpc_error(), Some((20, s("key does not exist"))));
    let zero = message(MessageType::Error, vec![("code", Json::UInt(0))]);
    assert_eq!(zero.is_rpc_error(), None);
    let no_code = message(MessageType::Error, vec![("text", Json::Str(s("x")))]);
    assert_eq!(
        no_code.is_rpc_error(),
        Some((13, s("Message body should contain 'code' field")))
    );
    let no_text = message(MessageType::Error, vec![("code", Json::UInt(22))]);
    assert_eq!(
        no_text.is_rpc_error(),
        Some((13, s("Message body should contain 'text' field")))
    );
    let bad_text = message(
        MessageType::Error,
        vec![("code", Json::UInt(22)), ("text", Json::UInt(1))],
    );
    assert_eq!(
        bad_text.is_rpc_error(),
        Some((13, s("'text' value type expect to be '&str'")))
    );
}
