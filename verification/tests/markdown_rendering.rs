use codefacts::json::{JsonNumber, JsonValue};
use codefacts::presentation::markdown::render;

fn obj(members: Vec<(&str, JsonValue)>) -> JsonValue {
    let mut value = JsonValue::object();
    for (key, member) in members {
        value.insert(key.to_string(), member);
    }
    value
}

fn s(text: &str) -> JsonValue {
    JsonValue::String(text.to_string())
}

fn n(value: u64) -> JsonValue {
    JsonValue::Number(JsonNumber::PosInt(value))
}

fn arr(items: Vec<JsonValue>) -> JsonValue {
    JsonValue::Array(items)
}

fn to_serde(value: &JsonValue) -> serde_json::Value {
    match value {
        JsonValue::Null => serde_json::Value::Null,
        JsonValue::Bool(b) => serde_json::Value::Bool(*b),
        JsonValue::Number(JsonNumber::PosInt(u)) => serde_json::Value::from(*u),
        JsonValue::Number(JsonNumber::NegInt(i)) => serde_json::Value::from(*i),
        JsonValue::Number(JsonNumber::Float(t)) => serde_json::from_str(t).expect("number text"),
        JsonValue::String(t) => serde_json::Value::String(t.clone()),
        JsonValue::Array(items) => serde_json::Value::Array(items.iter().map(to_serde).collect()),
        JsonValue::Object(fields) => {
            let mut map = serde_json::Map::new();
            for (key, member) in fields {
                map.insert(key.clone(), to_serde(member));
            }
            serde_json::Value::Object(map)
        }
    }
}

#[test]
fn repeated_facts_share_flattened_columns_and_keep_row_order() {
    let value = obj(vec![
        ("format", s("markdown")),
        (
            "results",
            arr(vec![
                obj(vec![
                    ("id", s("src/a.rs::function:first:1")),
                    ("name", s("first")),
                    ("kind", s("function")),
                    (
                        "evidence",
                        obj(vec![
                            ("file_path", s("src/a.rs")),
                            ("start_line", n(1)),
                            ("end_line", n(3)),
                            ("extractor", s("tree-sitter")),
                            ("confidence", s("confirmed")),
                        ]),
                    ),
                ]),
                obj(vec![
                    ("id", s("src/b.rs::function:second:8")),
                    ("name", s("second")),
                    ("kind", s("function")),
                    (
                        "evidence",
                        obj(vec![
                            ("file_path", s("src/b.rs")),
                            ("start_line", n(8)),
                            ("end_line", n(12)),
                            ("extractor", s("tree-sitter")),
                            ("confidence", s("heuristic")),
                        ]),
                    ),
                    ("resolution", s("call_candidates")),
                ]),
            ]),
        ),
        ("source_hashes", obj(vec![("src/a.rs", s("aaa111")), ("src/b.rs", s("bbb222"))])),
    ]);

    let markdown = render(&value);

    assert!(markdown.contains("evidence.file_path"));
    assert_eq!(markdown.matches("evidence.file_path").count(), 1);
    assert!(markdown.contains("resolution"));
    assert!(markdown.contains("confirmed"));
    assert!(markdown.contains("heuristic"));
    assert!(markdown.contains("call_candidates"));
    assert!(markdown.contains("aaa111"));
    assert!(markdown.contains("bbb222"));
    assert!(
        markdown.find("first:1").expect("first row") < markdown.find("second:8").expect("second row")
    );
    assert!(markdown.len() < serde_json::to_string_pretty(&to_serde(&value)).unwrap().len());
}

#[test]
fn preserves_status_cursors_truncation_and_empty_containers() {
    let value = obj(vec![
        ("status", s("stale_cursor")),
        ("next", obj(vec![])),
        ("next_cursor", s("0a0b0c")),
        ("truncated", JsonValue::Bool(true)),
        ("results", arr(vec![])),
        (
            "details",
            obj(vec![
                ("empty_object", obj(vec![])),
                ("empty_array", arr(vec![])),
                ("null_value", JsonValue::Null),
            ]),
        ),
    ]);

    let markdown = render(&value);

    for expected in [
        "status: stale_cursor",
        "next: {}",
        "next_cursor: 0a0b0c",
        "truncated: true",
        "results: []",
        "empty_object: {}",
        "empty_array: []",
        "null_value: null",
    ] {
        assert!(markdown.contains(expected), "missing {expected}:\n{markdown}");
    }
    assert!(
        markdown.find("- status:").unwrap() < markdown.find("## details").unwrap(),
        "root metadata must not appear under a child heading:\n{markdown}"
    );
}

#[test]
fn special_strings_and_source_fences_are_unambiguous() {
    let value = obj(vec![
        ("message", s("管道 | and `tick`")),
        (
            "source",
            obj(vec![
                ("status", s("ok")),
                ("text", s("fn main() {\n    println!(\"``` | 中文\");\n}")),
                ("truncated", JsonValue::Bool(false)),
            ]),
        ),
    ]);

    let markdown = render(&value);

    assert!(markdown.contains("`tick`"));
    assert!(markdown.contains("管道 | and"));
    assert!(!markdown.contains("管道 \\| and"));
    assert!(markdown.contains("````\nfn main()"));
    assert!(markdown.contains("println!(\"``` | 中文\");"));
    assert!(markdown.contains("}\n````"));
}

#[test]
fn nested_arrays_keep_item_order_without_forcing_a_table() {
    let value = obj(vec![(
        "context_entries",
        arr(vec![
            obj(vec![
                ("symbol", obj(vec![("name", s("alpha"))])),
                ("callers", arr(vec![s("zeta"), s("eta")])),
            ]),
            obj(vec![("symbol", obj(vec![("name", s("beta"))])), ("callers", arr(vec![]))]),
        ]),
    )]);

    let markdown = render(&value);

    assert!(!markdown.contains("symbol.name | callers"));
    assert!(markdown.find("alpha").expect("first item") < markdown.find("beta").expect("second item"));
    assert!(markdown.contains("[\"zeta\",\"eta\"]"));
    assert!(markdown.contains("callers: []"));
}

#[test]
fn disjoint_object_shapes_use_sections_instead_of_a_sparse_table() {
    let value = obj(vec![("items", arr(vec![obj(vec![("left", s("one"))]), obj(vec![("right", s("two"))])]))]);

    let markdown = render(&value);

    assert!(!markdown.contains("| left | right |"));
    assert!(markdown.contains("### 1"));
    assert!(markdown.contains("### 2"));
    assert!(markdown.contains("left: one"));
    assert!(markdown.contains("right: two"));
}

#[test]
fn context_relationship_headings_retain_their_parent_depth() {
    let value = obj(vec![(
        "context_entries",
        arr(vec![obj(vec![
            ("symbol", obj(vec![("id", s("anchor"))])),
            (
                "references",
                obj(vec![
                    (
                        "inbound",
                        arr(vec![
                            obj(vec![("kind", s("references")), ("from", obj(vec![("id", s("first"))]))]),
                            obj(vec![("kind", s("references")), ("from", obj(vec![("id", s("second"))]))]),
                        ]),
                    ),
                    ("outbound", arr(vec![])),
                ]),
            ),
        ])]),
    )]);

    let markdown = render(&value);

    for heading in ["## context_entries", "### 1", "#### references", "##### inbound", "#### symbol"] {
        assert!(markdown.contains(heading), "missing {heading}:\n{markdown}");
    }
    assert_eq!(markdown.matches("from.id").count(), 1);
    assert!(markdown.find("first").unwrap() < markdown.find("second").unwrap());
}

#[test]
fn anchors_and_source_precede_relationship_sections() {
    let value = obj(vec![
        ("status", s("ok")),
        ("callers", arr(vec![obj(vec![("kind", s("calls"))]), obj(vec![("kind", s("calls"))])])),
        ("source", obj(vec![("status", s("ok")), ("text", s("body"))])),
        ("definition", obj(vec![("id", s("anchor"))])),
        (
            "context_entries",
            arr(vec![obj(vec![
                ("callers", arr(vec![obj(vec![("kind", s("calls"))]), obj(vec![("kind", s("calls"))])])),
                ("source", obj(vec![("status", s("ok")), ("text", s("context body"))])),
                ("symbol", obj(vec![("id", s("context-anchor"))])),
            ])]),
        ),
    ]);

    let markdown = render(&value);

    let definition = markdown.find("## definition").unwrap();
    let source = markdown.find("## source").unwrap();
    let callers = markdown.find("## callers").unwrap();
    assert!(definition < source && source < callers, "{markdown}");

    let context = markdown.find("## context_entries").unwrap();
    let symbol = markdown[context..].find("#### symbol").unwrap();
    let context_source = markdown[context..].find("#### source").unwrap();
    let context_callers = markdown[context..].find("#### callers").unwrap();
    assert!(symbol < context_source && context_source < context_callers, "{markdown}");
}

#[test]
fn markdown_sensitive_identifiers_and_windows_paths_render_literally() {
    let value = obj(vec![
        ("identifier", s("__init__")),
        ("repository_root", s("C:\\_repo")),
        ("ordinary_identifier", s("source_hashes")),
    ]);

    let markdown = render(&value);

    assert!(markdown.contains("identifier: `__init__`"), "{markdown}");
    assert!(markdown.contains("repository_root: `C:\\_repo`"), "{markdown}");
    assert!(markdown.contains("ordinary_identifier: source_hashes"));
}

#[test]
fn boundary_backticks_and_pipes_survive_bullets_and_table_cells() {
    let value = obj(vec![
        ("name", s("`api`")),
        ("qualified_name", s("a|b")),
        (
            "headings",
            arr(vec![
                obj(vec![("kind", s("heading")), ("name", s("`api`"))]),
                obj(vec![("kind", s("heading")), ("name", s("a|b"))]),
            ]),
        ),
    ]);

    let markdown = render(&value);

    assert!(markdown.contains("- name: `` `api` ``"), "{markdown}");
    assert!(markdown.contains("- qualified_name: `a|b`"), "{markdown}");
    assert!(markdown.contains("|heading|`` `api` ``|"), "{markdown}");
    assert!(markdown.contains("|heading|`a\\|b`|"), "{markdown}");
}

#[test]
fn singleton_context_relationship_is_a_flat_owned_row() {
    let value = obj(vec![(
        "context_entries",
        arr(vec![obj(vec![
            ("symbol", obj(vec![("id", s("anchor"))])),
            (
                "callers",
                arr(vec![obj(vec![
                    ("kind", s("calls")),
                    (
                        "evidence",
                        obj(vec![("file_path", s("src/callsite.rs")), ("confidence", s("heuristic"))]),
                    ),
                    (
                        "from",
                        obj(vec![
                            ("id", s("caller")),
                            (
                                "evidence",
                                obj(vec![("file_path", s("src/caller.rs")), ("confidence", s("confirmed"))]),
                            ),
                        ]),
                    ),
                ])]),
            ),
        ])]),
    )]);

    let markdown = render(&value);

    assert!(markdown.contains("#### callers\n|"), "{markdown}");
    assert_eq!(markdown.matches("evidence.file_path").count(), 2);
    assert!(markdown.contains("from.evidence.file_path"));
    assert!(markdown.contains("src/callsite.rs"));
    assert!(markdown.contains("src/caller.rs"));
    assert!(!markdown.contains("##### 1"), "{markdown}");
    assert!(!markdown.contains("###### evidence"), "{markdown}");
}

#[test]
fn exact_document_for_a_small_result() {
    let value = obj(vec![
        ("status", s("ok")),
        ("count", n(2)),
        ("note", s("two words")),
        ("symbols", arr(vec![obj(vec![("name", s("a"))]), obj(vec![("name", s("b"))])])),
    ]);
    assert_eq!(
        render(&value),
        "- count: 2\n- note: `\"two words\"`\n- status: ok\n\n## symbols\n|name|\n|---|\n|a|\n|b|\n"
    );
}

#[test]
fn numbers_and_keywords_are_quoted_as_code() {
    let value = obj(vec![
        ("a", s("1e5")),
        ("b", s("true")),
        ("c", s("inf")),
        ("d", s("x~~y")),
        ("e", s("a\\*b")),
        ("f", s("1.2.3")),
    ]);
    assert_eq!(
        render(&value),
        "- a: `1e5`\n- b: `true`\n- c: `inf`\n- d: `x~~y`\n- e: `a\\*b`\n- f: 1.2.3\n"
    );
}

#[test]
fn scalar_lists_and_deep_sections() {
    assert_eq!(render(&arr(vec![n(1), s("x")])), "`[1,\"x\"]`\n");
    assert_eq!(render(&arr(vec![])), "[]\n");
    assert_eq!(render(&JsonValue::Null), "null\n");
    let nested = arr(vec![n(7), arr(vec![obj(vec![("k", arr(vec![arr(vec![])]))])])]);
    assert_eq!(render(&nested), "1. 7\n\n## 2\n\n### 1\n\n#### k\n1. []\n");
}
