use tasksync::codec::{format_u64, parse_decimal_u64, parse_in_msg, parse_out_msg,
    round_trip_in_msg, round_trip_out_msg, serialize_in_msg, serialize_out_msg};
use tasksync::tasks::{Task, Tasks};

fn single_task() -> Tasks {
    Tasks {
        tasks: vec![Task {
            id: 1,
            summary: "test".to_string(),
        }],
        next_id: 2,
    }
}

#[test]
fn serialize_exact_in_msg() {
    assert_eq!(
        serialize_in_msg(&single_task()),
        "{\"action\":\"tasks\",\"payload\":{\"tasks\":[{\"id\":1,\"summary\":\"test\"}],\"next_id\":2}}"
    );
}

#[test]
fn serialize_exact_out_msg_empty() {
    assert_eq!(
        serialize_out_msg(&Tasks::default()),
        "{\"action\":\"new_tasks\",\"payload\":{\"tasks\":[],\"next_id\":0}}"
    );
}

#[test]
fn round_trip_single_task() {
    let t = single_task();
    assert_eq!(parse_in_msg(&serialize_in_msg(&t)), Some(t.clone()));
    assert_eq!(parse_out_msg(&serialize_out_msg(&t)), Some(t));
}

#[test]
fn round_trip_composition_functions() {
    let t = single_task();
    assert_eq!(round_trip_in_msg(&t), t);
    assert_eq!(round_trip_out_msg(&t), t);
}

#[test]
fn round_trip_empty() {
    let t = Tasks::default();
    assert_eq!(parse_in_msg(&serialize_in_msg(&t)), Some(t.clone()));
    assert_eq!(parse_out_msg(&serialize_out_msg(&t)), Some(t));
}

#[test]
fn round_trip_many_tasks() {
    let t = Tasks {
        tasks: vec![
            Task {
                id: 0,
                summary: "buy milk".to_string(),
            },
            Task {
                id: 7,
                summary: String::new(),
            },
            Task {
                id: -3,
                summary: "walk the dog".to_string(),
            },
        ],
        next_id: 8,
    };
    assert_eq!(parse_in_msg(&serialize_in_msg(&t)), Some(t));
}

#[test]
fn round_trip_escaped_summary() {
    let t = Tasks {
        tasks: vec![Task {
            id: 2,
            summary: "say \"hi\" and C:\\temp".to_string(),
        }],
        next_id: 3,
    };
    let text = serialize_in_msg(&t);
    assert!(text.contains("say \\\"hi\\\" and C:\\\\temp"));
    assert_eq!(parse_in_msg(&text), Some(t));
}

#[test]
fn round_trip_extreme_ids() {
    let t = Tasks {
        tasks: vec![
            Task {
                id: i32::MIN,
                summary: "low".to_string(),
            },
            Task {
                id: i32::MAX,
                summary: "high".to_string(),
            },
        ],
        next_id: -1,
    };
    assert_eq!(parse_in_msg(&serialize_in_msg(&t)), Some(t));
}

#[test]
fn parse_exact_inbound_text() {
    let parsed = parse_in_msg(
        "{\"action\":\"tasks\",\"payload\":{\"tasks\":[{\"id\":1,\"summary\":\"buy milk\"}],\"next_id\":2}}",
    );
    let expected = Tasks {
        tasks: vec![Task {
            id: 1,
            summary: "buy milk".to_string(),
        }],
        next_id: 2,
    };
    assert_eq!(parsed, Some(expected));
}

#[test]
fn parse_rejects_malformed() {
    assert_eq!(parse_in_msg(""), None);
    assert_eq!(parse_in_msg("not json"), None);
    assert_eq!(parse_in_msg("{\"action\":\"tasks\"}"), None);
    assert_eq!(
        parse_in_msg("{\"action\":\"tasks\",\"payload\":{\"tasks\":[],\"next_id\":0}} "),
        None
    );
    assert_eq!(
        parse_in_msg("{\"action\":\"tasks\",\"payload\":{\"tasks\":[],\"next_id\":00}}"),
        None
    );
    assert_eq!(
        parse_in_msg("{\"action\":\"tasks\",\"payload\":{\"tasks\":[],\"next_id\":2147483648}}"),
        None
    );
}

#[test]
fn parse_rejects_wrong_action_tag() {
    let t = single_task();
    assert_eq!(parse_in_msg(&serialize_out_msg(&t)), None);
    assert_eq!(parse_out_msg(&serialize_in_msg(&t)), None);
}

#[test]
fn serialized_text_is_plain_json() {
    // an independent JSON parser reads the canonical text back as the
    // same document
    let text = serialize_in_msg(&single_task());
    let value: serde_json::Value = serde_json::from_str(&text).unwrap();
    assert_eq!(value["action"], serde_json::Value::String("tasks".to_string()));
    assert_eq!(value["payload"]["next_id"], serde_json::Value::from(2));
    assert_eq!(value["payload"]["tasks"][0]["id"], serde_json::Value::from(1));
    assert_eq!(
        value["payload"]["tasks"][0]["summary"],
        serde_json::Value::String("test".to_string())
    );
}

#[test]
fn decimal_u64_formatting() {
    assert_eq!(format_u64(0), "0");
    assert_eq!(format_u64(123), "123");
    assert_eq!(format_u64(u64::MAX), "18446744073709551615");
    assert_eq!(parse_decimal_u64(&format_u64(8674665223082153551)), Some(8674665223082153551));
}

#[test]
fn decimal_u64_parsing() {
    assert_eq!(parse_decimal_u64("0"), Some(0));
    assert_eq!(parse_decimal_u64("123"), Some(123));
    assert_eq!(parse_decimal_u64("007"), Some(7));
    assert_eq!(parse_decimal_u64("18446744073709551615"), Some(u64::MAX));
    assert_eq!(parse_decimal_u64("18446744073709551616"), None);
    assert_eq!(parse_decimal_u64(""), None);
    assert_eq!(parse_decimal_u64("12a"), None);
    assert_eq!(parse_decimal_u64("-1"), None);
}
