use litstore::parse::parse_value;
use litstore::render::{render_display, render_literal};
use litstore::store::{process_command, Store};
use litstore::value::{text_value, Value};

#[test]
fn parse_scalars() {
    assert_eq!(parse_value("30"), Some(Value::Integer(30)));
    assert_eq!(parse_value("-7"), Some(Value::Integer(-7)));
    assert_eq!(parse_value("+42"), Some(Value::Integer(42)));
    assert_eq!(parse_value("2147483647"), Some(Value::Integer(2147483647)));
    assert_eq!(parse_value("-2147483648"), Some(Value::Integer(-2147483648)));
    assert_eq!(parse_value("true"), Some(Value::Boolean(true)));
    assert_eq!(parse_value("FALSE"), Some(Value::Boolean(false)));
    assert_eq!(parse_value("TrUe"), Some(Value::Boolean(true)));
    assert_eq!(parse_value("\"Hello\""), Some(text_value("Hello")));
    assert_eq!(parse_value("plain"), Some(text_value("plain")));
}

#[test]
fn parse_rejects_floats_and_overflow() {
    assert_eq!(parse_value("3.14"), None);
    assert_eq!(parse_value("-2.5e3"), None);
    assert_eq!(parse_value("1.e5"), None);
    assert_eq!(parse_value(".5"), None);
    assert_eq!(parse_value("nan"), None);
    assert_eq!(parse_value("INF"), None);
    assert_eq!(parse_value("-infinity"), None);
    // one past i32::MAX: no longer an integer, still float-shaped
    assert_eq!(parse_value("2147483648"), None);
}

#[test]
fn parse_malformed_aggregates() {
    assert_eq!(parse_value("{a}"), None);
    assert_eq!(parse_value("[1,]"), None);
    assert_eq!(parse_value("[{]"), None);
    assert_eq!(parse_value("{\"a\":}"), None);
    assert_eq!(parse_value("<1,,2>"), None);
}

#[test]
fn parse_empty_aggregates() {
    assert_eq!(render_literal(&parse_value("{}").unwrap()), "{}");
    assert_eq!(render_literal(&parse_value("[ ]").unwrap()), "[]");
    assert_eq!(render_literal(&parse_value("<>").unwrap()), "<>");
}

#[test]
fn mapping_key_uniqueness() {
    let v = parse_value("{\"a\":1,\"a\":2}").unwrap();
    match &v {
        Value::Mapping(ps) => assert_eq!(ps.len(), 1),
        _ => panic!("expected a mapping"),
    }
    assert_eq!(render_literal(&v), "{a: 2}");
}

#[test]
fn set_deduplication() {
    let v = parse_value("<1,1,2>").unwrap();
    match &v {
        Value::UniqueSet(es) => assert_eq!(es.len(), 2),
        _ => panic!("expected a unique set"),
    }
    assert_eq!(render_literal(&v), "<1, 2>");
}

#[test]
fn set_canonical_order() {
    // insertion order is not preserved; the total order is
    let v = parse_value("<true, 2, \"b\", \"a\", 1, false>").unwrap();
    assert_eq!(render_literal(&v), "<\"a\", \"b\", 1, 2, false, true>");
}

#[test]
fn mapping_keys_sorted() {
    let v = parse_value("{b: 2, a: 1, c: 3}").unwrap();
    assert_eq!(render_literal(&v), "{a: 1, b: 2, c: 3}");
}

#[test]
fn round_trip_literal() {
    let cases = [
        "30",
        "-7",
        "true",
        "\"Hello world\"",
        "{}",
        "[]",
        "<>",
        "{\"x\": [1, 2, <true, false>], \"y\": \"hi\"}",
        "[[1], [2, 3], {k: <1>}]",
    ];
    for lit in cases.iter() {
        let v = parse_value(lit).expect("case should parse");
        let text = render_literal(&v);
        let v2 = parse_value(&text).expect("rendered text should parse");
        assert_eq!(v, v2);
        // the canonical form is a fixed point
        assert_eq!(render_literal(&v2), text);
    }
}

#[test]
fn parse_and_render_deterministic() {
    let lit = "{\"x\": [1, 2, <true, false>]}";
    let a = parse_value(lit).unwrap();
    let b = parse_value(lit).unwrap();
    assert_eq!(a, b);
    assert_eq!(render_literal(&a), render_literal(&b));
    assert_eq!(render_display(&a), render_display(&b));
}

#[test]
fn display_forms() {
    assert_eq!(render_display(&Value::Integer(30)), "Integer(30)");
    assert_eq!(render_display(&Value::Boolean(true)), "Boolean(true)");
    assert_eq!(render_display(&text_value("Hello")), "String(\"Hello\")");
    let v = parse_value("{\"x\":[1,2,<true,false>]}").unwrap();
    assert_eq!(
        render_display(&v),
        "{x: [Integer(1), Integer(2), {Boolean(false), Boolean(true)}]}"
    );
}

#[test]
fn nested_round_trip_through_store() {
    let mut store = Store::new();
    let history = Vec::new();
    let out_set = process_command(&mut store, "set k {\"x\":[1,2,<true,false>]}", &history);
    let rendered = "{x: [Integer(1), Integer(2), {Boolean(false), Boolean(true)}]}";
    assert_eq!(out_set, format!("Set key 'k' with value '{}'", rendered));
    let out_get = process_command(&mut store, "get k", &history);
    assert_eq!(out_get, format!("Value for key 'k': '{}'", rendered));
}

#[test]
fn update_does_not_create() {
    let mut store = Store::new();
    let history = Vec::new();
    let out = process_command(&mut store, "update missing 5", &history);
    assert_eq!(out, "Error: Key 'missing' does not exist.");
    let out2 = process_command(&mut store, "get missing", &history);
    assert_eq!(out2, "Error: Key 'missing' was not found.");
}

#[test]
fn unsupported_literal_leaves_store_unchanged() {
    let mut store = Store::new();
    let history = Vec::new();
    let out = process_command(&mut store, "set k 3.14", &history);
    assert_eq!(
        out,
        "Error: Unsupported value type.\nSupported types: String, Integer, Boolean, Map, List, Set"
    );
    assert!(!store.contains_key("k"));
    let out_no_value = process_command(&mut store, "set k", &history);
    assert_eq!(
        out_no_value,
        "Error: The 'set' command requires <value>.\nUsage: set <key> <value>"
    );
    let out_bare = process_command(&mut store, "set", &history);
    assert_eq!(
        out_bare,
        "Error: The 'set' command requires <key> and <value>.\nUsage: set <key> <value>"
    );
}

#[test]
fn list_sorted_regardless_of_insertion_order() {
    let mut store = Store::new();
    let history = Vec::new();
    assert_eq!(process_command(&mut store, "list", &history), "Store is empty.");
    process_command(&mut store, "set b 2", &history);
    process_command(&mut store, "set a 1", &history);
    assert_eq!(process_command(&mut store, "list", &history), "Keys: a, b");
}

#[test]
fn set_aggregates_through_commands() {
    let mut store = Store::new();
    let history = Vec::new();
    let out = process_command(&mut store, "set s <1,1,2>", &history);
    assert_eq!(out, "Set key 's' with value '{Integer(1), Integer(2)}'");
    let out2 = process_command(&mut store, "set m {\"a\":1,\"a\":2}", &history);
    assert_eq!(out2, "Set key 'm' with value '{a: Integer(2)}'");
}

#[test]
fn quoted_text_keeps_spaces() {
    let mut store = Store::new();
    let history = Vec::new();
    let out = process_command(&mut store, "set k \"a b\"", &history);
    assert_eq!(out, "Set key 'k' with value 'String(\"a b\")'");
}

#[test]
fn exit_response() {
    let mut store = Store::new();
    let history = Vec::new();
    assert_eq!(process_command(&mut store, "exit", &history), "Exiting...");
}

#[test]
fn usage_messages_for_missing_keys() {
    let mut store = Store::new();
    let history = Vec::new();
    assert_eq!(
        process_command(&mut store, "get", &history),
        "Error: The 'get' command requires <key>.\nUsage: get <key>"
    );
    assert_eq!(
        process_command(&mut store, "update", &history),
        "Error: The 'update' command requires <key> and <new_value>.\nUsage: update <key> <new_value>"
    );
}

#[test]
fn history_numbers_past_nine() {
    let mut store = Store::new();
    let mut history = Vec::new();
    for i in 1..=10 {
        history.push(format!("set k{} {}", i, i));
    }
    let out = process_command(&mut store, "history", &history);
    assert!(out.starts_with("Command History:\n1: set k1 1\n"));
    assert!(out.ends_with("\n10: set k10 10"));
}

#[test]
fn deep_nesting_round_trip() {
    let v = parse_value("[[[[1]]]]").unwrap();
    let text = render_literal(&v);
    assert_eq!(text, "[[[[1]]]]");
    assert_eq!(parse_value(&text).unwrap(), v);
}

#[test]
fn empty_and_quote_edges() {
    assert_eq!(parse_value(""), None);
    assert_eq!(parse_value("\"\""), Some(text_value("")));
    // a single quote character is both the opening and the closing one
    assert_eq!(parse_value("\""), Some(text_value("")));
    assert_eq!(parse_value("\"a,b\""), Some(text_value("a,b")));
}
