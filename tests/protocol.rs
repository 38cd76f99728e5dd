use resp_kv::codec::ProtocolError;
use resp_kv::command::{execute, handle_resp};
use resp_kv::store::Store;
use resp_kv::value::Value;

fn bulk(s: &str) -> Value {
    Value::BulkString(s.to_string())
}

fn command(words: &[&str]) -> Value {
    Value::Array(words.iter().map(|w| bulk(w)).collect())
}

fn reply(store: &mut Store, request: &[u8]) -> String {
    handle_resp(request, store).expect("request should decode")
}

#[test]
fn ping_scenario() {
    let mut store = Store::new();
    assert_eq!(reply(&mut store, b"*1\r\n$4\r\nPING\r\n"), "+PONG\r\n");
}

#[test]
fn set_then_get_scenario() {
    let mut store = Store::new();
    assert_eq!(
        reply(&mut store, b"*3\r\n$3\r\nSET\r\n$3\r\nfoo\r\n$3\r\nbar\r\n"),
        "+OK\r\n"
    );
    assert_eq!(reply(&mut store, b"*2\r\n$3\r\nGET\r\n$3\r\nfoo\r\n"), "$3\r\nbar\r\n");
}

#[test]
fn get_missing_scenario() {
    let mut store = Store::new();
    assert_eq!(reply(&mut store, b"*2\r\n$3\r\nGET\r\n$7\r\nmissing\r\n"), "*-1\r\n");
}

#[test]
fn ping_ignores_case() {
    let mut store = Store::new();
    for word in ["PING", "ping", "PiNg"] {
        let r = execute(&command(&[word]), &mut store);
        assert_eq!(r.to_resp(), "+PONG\r\n");
    }
}

#[test]
fn second_set_wins() {
    let mut store = Store::new();
    execute(&command(&["SET", "k", "one"]), &mut store);
    execute(&command(&["set", "k", "two"]), &mut store);
    let r = execute(&command(&["GET", "k"]), &mut store);
    assert_eq!(r.to_resp(), "$3\r\ntwo\r\n");
}

#[test]
fn distinct_keys_keep_their_values() {
    let mut store = Store::new();
    let n = 50;
    for i in (0..n).rev() {
        let key = format!("key{}", i);
        let value = format!("value{}", i * 7);
        execute(&command(&["SET", &key, &value]), &mut store);
    }
    for i in 0..n {
        let key = format!("key{}", i);
        let value = format!("value{}", i * 7);
        let r = execute(&command(&["GET", &key]), &mut store);
        assert_eq!(r.to_resp(), format!("${}\r\n{}\r\n", value.len(), value));
    }
}

#[test]
fn bare_bulk_string_is_an_error_reply() {
    let mut store = Store::new();
    assert_eq!(
        reply(&mut store, b"$4\r\nPING\r\n"),
        "-RESP transmitted is not array\r\n"
    );
}

#[test]
fn command_word_must_be_bulk_string() {
    let mut store = Store::new();
    assert_eq!(
        reply(&mut store, b"*1\r\n+PING\r\n"),
        "-command is not bulk string\r\n"
    );
    assert_eq!(reply(&mut store, b"*0\r\n"), "-command is not bulk string\r\n");
}

#[test]
fn argument_errors() {
    let mut store = Store::new();
    let cases: [(&[&str], &str); 6] = [
        (&["ECHO"], "-no args to echo\r\n"),
        (&["GET"], "-no key for get\r\n"),
        (&["SET", "k"], "-no key and value for set\r\n"),
        (&["PING", "x"], "-wrong number of arguments for ping\r\n"),
        (&["FLUSHALL"], "-command not supported\r\n"),
        (&["pingg"], "-command not supported\r\n"),
    ];
    for (words, expected) in cases {
        assert_eq!(execute(&command(words), &mut store).to_resp(), expected);
    }
    let get_int = Value::Array(vec![bulk("GET"), Value::Integer("1".to_string())]);
    assert_eq!(execute(&get_int, &mut store).to_resp(), "-no key for get\r\n");
}

#[test]
fn echo_returns_first_argument() {
    let mut store = Store::new();
    assert_eq!(
        reply(&mut store, b"*3\r\n$4\r\necho\r\n$5\r\nhello\r\n$5\r\nworld\r\n"),
        "$5\r\nhello\r\n"
    );
    let nested = Value::Array(vec![
        bulk("ECHO"),
        Value::Array(vec![Value::Integer("7".to_string()), Value::Nil]),
    ]);
    assert_eq!(execute(&nested, &mut store).to_resp(), "*2\r\n:7\r\n*-1\r\n");
}

#[test]
fn encodes_each_kind() {
    assert_eq!(Value::SimpleString("OK".to_string()).to_resp(), "+OK\r\n");
    assert_eq!(Value::Error("bad".to_string()).to_resp(), "-bad\r\n");
    assert_eq!(Value::Integer("42".to_string()).to_resp(), ":42\r\n");
    assert_eq!(Value::Nil.to_resp(), "*-1\r\n");
    assert_eq!(Value::Array(vec![]).to_resp(), "*0\r\n");
    assert_eq!(bulk("").to_resp(), "$0\r\n\r\n");
    assert_eq!(bulk("héllo").to_resp(), "$6\r\nhéllo\r\n");
    let many: Vec<Value> = (0..12).map(|_| Value::Nil).collect();
    assert!(Value::Array(many).to_resp().starts_with("*12\r\n*-1\r\n"));
}

#[test]
fn decode_of_encode_gives_the_value_back() {
    let values = vec![
        Value::Nil,
        Value::Array(vec![]),
        bulk(""),
        bulk("héllo wörld"),
        Value::Error("ERR oops".to_string()),
        Value::Integer("-12".to_string()),
        Value::SimpleString("a\rb\nc\r".to_string()),
        Value::Array(vec![
            bulk("SET"),
            Value::Array(vec![Value::Nil, Value::Integer("3".to_string()), Value::Array(vec![])]),
            Value::SimpleString("x".to_string()),
        ]),
    ];
    for v in values {
        let wire = v.to_resp();
        let back = Value::parse(wire.as_bytes()).expect("decodes");
        assert_eq!(back.to_resp(), wire);
    }
}

#[test]
fn decode_reads_each_kind() {
    match Value::parse(b"+OK\r\n") {
        Ok(Value::SimpleString(s)) => assert_eq!(s, "OK"),
        other => panic!("unexpected {:?}", other),
    }
    match Value::parse("$99\r\nnaïve\r\n".as_bytes()) {
        Ok(Value::BulkString(s)) => assert_eq!(s, "naïve"),
        other => panic!("unexpected {:?}", other),
    }
    match Value::parse(b"*-1\r\n") {
        Ok(Value::Nil) => {}
        other => panic!("unexpected {:?}", other),
    }
    match Value::parse(b"*-5\r\n") {
        Ok(Value::Array(items)) => assert!(items.is_empty()),
        other => panic!("unexpected {:?}", other),
    }
    match Value::parse(b"*+1\r\n:5\r\nignored") {
        Ok(Value::Array(items)) => assert_eq!(Value::Array(items).to_resp(), "*1\r\n:5\r\n"),
        other => panic!("unexpected {:?}", other),
    }
}

#[test]
fn decode_errors() {
    assert_eq!(Value::parse(b"\xff\r\n").err(), Some(ProtocolError::InvalidUtf8));
    assert_eq!(Value::parse(b"$3").err(), Some(ProtocolError::MissingLine));
    assert_eq!(Value::parse(b"*2\r\n+a").err(), Some(ProtocolError::MissingLine));
    assert_eq!(Value::parse(b"").err(), Some(ProtocolError::UnknownPrefix));
    assert_eq!(Value::parse(b"hello\r\n").err(), Some(ProtocolError::UnknownPrefix));
    assert_eq!(Value::parse(b"*x\r\n").err(), Some(ProtocolError::BadCount));
    assert_eq!(Value::parse(b"*\r\n").err(), Some(ProtocolError::BadCount));
    assert_eq!(
        Value::parse(b"*9223372036854775808\r\n").err(),
        Some(ProtocolError::BadCount)
    );
    assert_eq!(
        Value::parse(b"*9223372036854775807").err(),
        Some(ProtocolError::MissingLine)
    );
}

#[test]
fn failed_decode_leaves_store_alone() {
    let mut store = Store::new();
    store.set("k".to_string(), "v".to_string());
    assert_eq!(
        handle_resp(b"*3\r\n$3\r\nSET\r\n$1\r\nk", &mut store).err(),
        Some(ProtocolError::MissingLine)
    );
    assert_eq!(store.get(&"k".to_string()), Some("v".to_string()));
    assert_eq!(store.get(&"other".to_string()), None);
}
