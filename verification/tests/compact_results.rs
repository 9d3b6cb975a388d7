use codefacts::json::{JsonNumber, JsonValue};
use codefacts::presentation::compact;

fn obj(members: Vec<(&str, JsonValue)>) -> JsonValue {
    let mut value = JsonValue::object();
    for (key, member) in members {
        value.insert(key.to_string(), member);
    }
    value
}

fn s(text: &str) -> JsonValue {
    JsonValue::String(text.to_string())
}

fn n(value: u64) -> JsonValue {
    JsonValue::Number(JsonNumber::PosInt(value))
}

fn id(text: &str) -> JsonValue {
    obj(vec![("id", s(text))])
}

#[test]
fn relationship_endpoints_that_repeat_the_anchor_are_written_once() {
    let value = obj(vec![
        ("definition", id("anchor")),
        ("callers", JsonValue::Array(vec![obj(vec![("from", id("caller")), ("to", id("anchor"))])])),
        ("callees", JsonValue::Array(vec![obj(vec![("from", id("anchor")), ("to", id("callee"))])])),
        (
            "references",
            obj(vec![
                ("inbound", JsonValue::Array(vec![obj(vec![("from", id("user")), ("to", id("anchor"))])])),
                ("outbound", JsonValue::Array(vec![obj(vec![("from", id("elsewhere")), ("to", id("x"))])])),
            ]),
        ),
    ]);
    assert_eq!(
        compact(value).to_json_string(),
        concat_parts(&[
            r#"{"callees":[{"to":{"id":"callee"}}],"callers":[{"from":{"id":"caller"}}],"#,
            r#""definition":{"id":"anchor"},"format":"compact","#,
            r#""references":{"inbound":[{"from":{"id":"user"}}],"outbound":[{"from":{"id":"elsewhere"},"to":{"id":"x"}}]}}"#,
        ])
    );
}

#[test]
fn context_entries_use_their_own_symbol_as_anchor() {
    let value = obj(vec![
        ("symbol", id("top")),
        (
            "context_entries",
            JsonValue::Array(vec![obj(vec![
                ("symbol", id("inner")),
                (
                    "callers",
                    JsonValue::Array(vec![
                        obj(vec![("from", id("a")), ("to", id("inner"))]),
                        obj(vec![("from", id("b")), ("to", id("top"))]),
                    ]),
                ),
            ])]),
        ),
    ]);
    assert_eq!(
        compact(value).to_json_string(),
        concat_parts(&[
            r#"{"context_entries":[{"callers":[{"from":{"id":"a"}},{"from":{"id":"b"},"to":{"id":"top"}}],"#,
            r#""symbol":{"id":"inner"}}],"format":"compact","symbol":{"id":"top"}}"#,
        ])
    );
}

#[test]
fn zero_freshness_counts_and_nulls_are_left_out() {
    let value = obj(vec![
        ("freshness", obj(vec![("files_indexed", n(0)), ("files_skipped", n(3)), ("generation", n(0))])),
        ("next_cursor", JsonValue::Null),
        ("status", s("ok")),
    ]);
    assert_eq!(
        compact(value).to_json_string(),
        r#"{"format":"compact","freshness":{"files_skipped":3,"generation":0},"status":"ok"}"#
    );
}

#[test]
fn source_hashes_are_gathered_once_per_file() {
    let fact = |file: &str, hash: &str, name: &str| {
        obj(vec![("file_path", s(file)), ("name", s(name)), ("source_hash", s(hash))])
    };
    let value = obj(vec![(
        "results",
        JsonValue::Array(vec![fact("a.rs", "h1", "one"), fact("b.rs", "h2", "two"), fact("a.rs", "h1", "three")]),
    )]);
    assert_eq!(
        compact(value).to_json_string(),
        concat_parts(&[
            r#"{"format":"compact","results":[{"file_path":"a.rs","name":"one"},{"file_path":"b.rs","name":"two"},"#,
            r#"{"file_path":"a.rs","name":"three"}],"source_hashes":{"a.rs":"h1","b.rs":"h2"}}"#,
        ])
    );
}

#[test]
fn results_without_hashes_only_gain_the_format_marker() {
    let value = obj(vec![("status", s("not_found")), ("message", s("no symbol"))]);
    assert_eq!(
        compact(value).to_json_string(),
        r#"{"format":"compact","message":"no symbol","status":"not_found"}"#
    );
}

fn concat_parts(parts: &[&str]) -> String {
    parts.join("")
}
