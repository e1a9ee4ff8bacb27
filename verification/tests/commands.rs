use redis_oxide::order::value_eq;
use redis_oxide::router::route;
use redis_oxide::store::Store;
use redis_oxide::{handlers, Value};

fn cmd(parts: &[&[u8]]) -> Value {
    let mut items = Vec::new();
    for p in parts {
        items.push(Value::BulkString(p.to_vec()));
    }
    Value::Array(items)
}

fn send(req: Value, store: &mut Store, docs: &Vec<u8>) -> Option<Vec<u8>> {
    route(req, store, docs)
}

#[test]
fn set_then_get_returns_the_value() {
    let mut store = Store::new();
    let docs = Vec::new();
    let r = send(cmd(&[b"set", b"k", b"v"]), &mut store, &docs);
    assert_eq!(r.unwrap(), b"+OK\r\n");
    let g1 = send(cmd(&[b"get", b"k"]), &mut store, &docs).unwrap();
    let g2 = send(cmd(&[b"get", b"k"]), &mut store, &docs).unwrap();
    assert_eq!(g1, b"$1\r\nv\r\n");
    assert_eq!(g1, g2);
}

#[test]
fn get_missing_key_is_explicit_null() {
    let mut store = Store::new();
    let docs = Vec::new();
    let r = send(cmd(&[b"get", b"nothing"]), &mut store, &docs).unwrap();
    assert_eq!(r, b"_\r\n");
}

#[test]
fn incr_then_decr_returns_to_zero() {
    let mut store = Store::new();
    let docs = Vec::new();
    let up = send(cmd(&[b"incr", b"n"]), &mut store, &docs).unwrap();
    assert_eq!(up, b":1\r\n");
    // a fresh key stores the integer itself
    let g1 = send(cmd(&[b"get", b"n"]), &mut store, &docs).unwrap();
    assert_eq!(g1, b":1\r\n");
    let down = send(cmd(&[b"decr", b"n"]), &mut store, &docs).unwrap();
    assert_eq!(down, b":0\r\n");
    // a present counter is re-encoded as the digits in a bulk string
    let g2 = send(cmd(&[b"get", b"n"]), &mut store, &docs).unwrap();
    assert_eq!(g2, b"$1\r\n0\r\n");
}

#[test]
fn decr_on_absent_key_starts_below_zero() {
    let mut store = Store::new();
    let docs = Vec::new();
    let down = send(cmd(&[b"decr", b"m"]), &mut store, &docs).unwrap();
    assert_eq!(down, b":-1\r\n");
    // the fresh key holds the integer minus one
    let g = send(cmd(&[b"get", b"m"]), &mut store, &docs).unwrap();
    assert_eq!(g, b":-1\r\n");
}

#[test]
fn set_without_value_is_arity_error_and_stores_nothing() {
    let mut store = Store::new();
    let docs = Vec::new();
    let r = send(cmd(&[b"set", b"k"]), &mut store, &docs).unwrap();
    assert_eq!(r, b"-Error, wrong amount of arguments for 'set' command\r\n");
    let g = send(cmd(&[b"get", b"k"]), &mut store, &docs).unwrap();
    assert_eq!(g, b"_\r\n");
}

#[test]
fn incr_on_non_integer_errors_and_keeps_the_value() {
    let mut store = Store::new();
    let docs = Vec::new();
    // store a simple string whose text is no integer
    let mut req_items = vec![
        Value::BulkString(b"set".to_vec()),
        Value::BulkString(b"k".to_vec()),
        Value::String(b"abc".to_vec()),
    ];
    let req = Value::Array(std::mem::take(&mut req_items));
    send(req, &mut store, &docs).unwrap();
    let r = send(cmd(&[b"incr", b"k"]), &mut store, &docs).unwrap();
    assert_eq!(r, b"-ERR value is not an integer or out of range\r\n");
    let g = send(cmd(&[b"get", b"k"]), &mut store, &docs).unwrap();
    assert_eq!(g, b"+abc\r\n");
}

#[test]
fn incr_at_the_top_of_the_range_errors() {
    let mut store = Store::new();
    let docs = Vec::new();
    send(cmd(&[b"set", b"k", b"9223372036854775807"]), &mut store, &docs).unwrap();
    let r = send(cmd(&[b"incr", b"k"]), &mut store, &docs).unwrap();
    assert_eq!(r, b"-ERR value is not an integer or out of range\r\n");
}

#[test]
fn del_counts_only_present_keys() {
    let mut store = Store::new();
    let docs = Vec::new();
    send(cmd(&[b"set", b"a", b"1"]), &mut store, &docs).unwrap();
    let r = send(cmd(&[b"del", b"a", b"b", b"c"]), &mut store, &docs).unwrap();
    assert_eq!(r, b":1\r\n");
    let g = send(cmd(&[b"get", b"a"]), &mut store, &docs).unwrap();
    assert_eq!(g, b"_\r\n");
}

#[test]
fn del_counts_a_repeated_key_once() {
    let mut store = Store::new();
    let docs = Vec::new();
    send(cmd(&[b"set", b"a", b"1"]), &mut store, &docs).unwrap();
    let r = send(cmd(&[b"del", b"a", b"a"]), &mut store, &docs).unwrap();
    assert_eq!(r, b":1\r\n");
}

#[test]
fn command_names_match_any_letter_case() {
    let mut store = Store::new();
    let docs = Vec::new();
    send(cmd(&[b"SeT", b"k", b"v"]), &mut store, &docs).unwrap();
    let g = send(cmd(&[b"GET", b"k"]), &mut store, &docs).unwrap();
    assert_eq!(g, b"$1\r\nv\r\n");
}

#[test]
fn unknown_commands_and_shapes_error() {
    let mut store = Store::new();
    let docs = Vec::new();
    let r = send(cmd(&[b"flush"]), &mut store, &docs).unwrap();
    assert_eq!(r, b"-ERR unknown command\r\n");
    let r2 = send(Value::Integer(5), &mut store, &docs).unwrap();
    assert_eq!(r2, b"-ERR unknown command\r\n");
    let r3 = send(Value::Array(Vec::new()), &mut store, &docs);
    assert!(r3.is_none());
}

#[test]
fn command_docs_serves_the_payload() {
    let mut store = Store::new();
    let docs = b"*1\r\n+stub\r\n".to_vec();
    let r = send(cmd(&[b"command", b"docs"]), &mut store, &docs).unwrap();
    assert_eq!(r, docs);
    let bare = send(cmd(&[b"command"]), &mut store, &docs).unwrap();
    assert_eq!(bare, docs);
    let other = send(cmd(&[b"command", b"count"]), &mut store, &docs);
    assert!(other.is_none());
    let direct = handlers::handle_command_docs(b"DOCS", &docs).unwrap();
    assert_eq!(direct, docs);
}

#[test]
fn get_does_not_change_the_store() {
    let mut store = Store::new();
    let docs = Vec::new();
    send(cmd(&[b"set", b"k", b"v"]), &mut store, &docs).unwrap();
    let direct = handlers::get(&store, b"k");
    assert!(value_eq(&direct, &Value::BulkString(b"v".to_vec())));
    // a read of a missing key changes nothing either
    handlers::get(&store, b"zz");
    let g = send(cmd(&[b"get", b"k"]), &mut store, &docs).unwrap();
    assert_eq!(g, b"$1\r\nv\r\n");
}
