use codefacts::error::CodeFactsError;
use codefacts::json::{JsonNumber, JsonValue};
use codefacts::service::PageOffset;
use codefacts::service::expand::{
    bound_expand_page, expand_page_offset, bounded_resolution_result, PageContext, fact_exceeds_budget, omit_source_text, trim_largest_section, ExpandSection,
    SectionPage,
};
use codefacts::service::{markdown_section, repository_root_identity};
use codefacts::types::{CodeNode, Language, NodeKind};

fn obj(members: Vec<(&str, JsonValue)>) -> JsonValue {
    let mut value = JsonValue::object();
    for (key, member) in members {
        value.insert(key.to_string(), member);
    }
    value
}

fn s(text: &str) -> JsonValue {
    JsonValue::String(text.to_string())
}

fn candidate(i: usize) -> JsonValue {
    obj(vec![
        ("id", s(&format!("module_{i:03}_with_a_long_filename_to_exercise_hash_and_location_overhead.rs::function:duplicate:1"))),
        ("name", s("duplicate")),
        (
            "evidence",
            obj(vec![
                ("file_path", s(&format!("module_{i:03}_with_a_long_filename_to_exercise_hash_and_location_overhead.rs"))),
                ("source_hash", s(&format!("{i:064}"))),
            ]),
        ),
    ])
}

#[test]
fn small_resolution_results_are_presented_whole() {
    let result = obj(vec![
        ("status", s("not_found")),
        ("symbol", s("missing")),
        ("message", s("No indexed symbol matches this identifier.")),
        ("next_cursor", JsonValue::Null),
    ]);
    let presented = bounded_resolution_result(result).expect("fits");
    assert_eq!(
        presented.to_json_string(),
        r#"{"format":"compact","max_bytes":16384,"message":"No indexed symbol matches this identifier.","status":"not_found","symbol":"missing"}"#
    );
}

#[test]
fn ambiguous_candidates_are_trimmed_to_the_budget() {
    let matches: Vec<JsonValue> = (0..50).map(candidate).collect();
    let result = obj(vec![
        ("status", s("ambiguous")),
        ("symbol", s("duplicate")),
        ("matches", JsonValue::Array(matches)),
        ("message", s("Use an exact symbol id or add file_path; CodeFacts does not guess.")),
    ]);
    let presented = bounded_resolution_result(result).expect("trimmed result fits");
    let text = presented.to_json_string();
    assert!(text.len() <= 16384);
    let parsed: serde_json::Value = serde_json::from_str(&text).expect("valid JSON");
    let kept = parsed["matches"].as_array().expect("matches").len();
    assert!(kept > 1 && kept < 50, "kept {kept}");
    assert_eq!(parsed["truncated"], serde_json::Value::Bool(true));
    assert_eq!(
        parsed["message"],
        "Candidate list truncated by response budget. Add file_path or use paged search to select an exact symbol id."
    );
    assert_eq!(parsed["format"], "compact");
    assert_eq!(parsed["max_bytes"], 16384);
    assert_eq!(parsed["source_hashes"].as_object().expect("hashes").len(), kept);
    assert!(parsed["matches"][0]["evidence"].get("source_hash").is_none());
}

#[test]
fn one_oversized_fact_is_refused() {
    let result = obj(vec![("status", s("stale_cursor")), ("message", s(&"x".repeat(20000)))]);
    match bounded_resolution_result(result) {
        Err(error) => assert_eq!(
            error,
            CodeFactsError::Mcp("One fact exceeds the compact response budget; request format=full.".to_string())
        ),
        Ok(value) => panic!("unexpected {}", value.to_json_string()),
    }
}

fn heading(body: Option<String>) -> CodeNode {
    CodeNode {
        id: "README.md::heading:Install:3".to_string(),
        name: "Install".to_string(),
        qualified_name: None,
        kind: NodeKind::Heading,
        file_path: "README.md".to_string(),
        start_line: 3,
        end_line: 9,
        start_column: 0,
        end_column: 0,
        language: Language::Markdown,
        body,
        documentation: None,
        exported: None,
    }
}

#[test]
fn markdown_sections_are_cut_at_a_character_boundary() {
    let short = markdown_section(&heading(Some("Install text.".to_string())));
    assert_eq!(
        short.to_json_string(),
        r#"{"content":"Install text.","end_line":9,"start_line":3,"truncated":false}"#
    );
    let long = "é".repeat(1500);
    let cut = markdown_section(&heading(Some(long)));
    let parsed: serde_json::Value = serde_json::from_str(&cut.to_json_string()).expect("valid JSON");
    assert_eq!(parsed["content"].as_str().expect("content").len(), 2048);
    assert_eq!(parsed["truncated"], true);
    let odd = format!("a{}", "é".repeat(1500));
    let cut = markdown_section(&heading(Some(odd)));
    let parsed: serde_json::Value = serde_json::from_str(&cut.to_json_string()).expect("valid JSON");
    assert_eq!(parsed["content"].as_str().expect("content").len(), 2047);
    let empty = markdown_section(&heading(None));
    assert_eq!(empty.to_json_string(), r#"{"content":"","end_line":9,"start_line":3,"truncated":false}"#);
    let mut function = heading(Some("fn main() {}".to_string()));
    function.kind = NodeKind::Function;
    assert!(markdown_section(&function).is_null());
}

#[test]
fn windows_roots_lose_their_verbatim_prefix() {
    assert_eq!(repository_root_identity(r"\\?\D:\repo", true), r"D:\repo");
    assert_eq!(repository_root_identity(r"\\?\UNC\server\share", true), r"\\server\share");
    assert_eq!(repository_root_identity(r"D:\repo", true), r"D:\repo");
    assert_eq!(repository_root_identity(r"\\?\D:\repo", false), r"\\?\D:\repo");
    assert_eq!(repository_root_identity("/home/repo", false), "/home/repo");
}

#[test]
fn numbers_keep_their_json_form() {
    let value = obj(vec![("n", JsonValue::Number(JsonNumber::NegInt(-3)))]);
    assert_eq!(value.to_json_string(), r#"{"n":-3}"#);
}

fn page(section: ExpandSection) -> SectionPage {
    SectionPage { section, offset: 0, more: false }
}

fn items(prefix: &str, n: usize) -> JsonValue {
    JsonValue::Array((0..n).map(|i| s(&format!("{prefix}{i}"))).collect())
}

fn expand_answer() -> JsonValue {
    obj(vec![
        ("status", s("ok")),
        ("callers", items("caller", 2)),
        ("callees", items("a_much_longer_callee_name_", 2)),
        (
            "references",
            obj(vec![
                ("inbound", items("in", 1)),
                ("outbound", JsonValue::Array(vec![])),
                (
                    "semantic",
                    obj(vec![
                        ("status", s("ok")),
                        ("omitted_locations", JsonValue::Number(JsonNumber::PosInt(3))),
                        ("locations", items("location_with_a_very_long_description_", 2)),
                    ]),
                ),
            ]),
        ),
    ])
}

#[test]
fn trimming_drops_the_last_item_of_the_largest_section() {
    let mut result = expand_answer();
    let mut pages = vec![page(ExpandSection::Callers), page(ExpandSection::Callees)];
    assert!(trim_largest_section(&mut result, &mut pages));
    let parsed: serde_json::Value = serde_json::from_str(&result.to_json_string()).unwrap();
    assert_eq!(parsed["callees"], serde_json::Value::Array(vec!["a_much_longer_callee_name_0".into()]));
    assert_eq!(parsed["callers"].as_array().unwrap().len(), 2);
    assert!(pages[1].more);
    assert!(!pages[0].more);
}

#[test]
fn trimming_prefers_the_last_of_equally_large_sections() {
    let mut result = obj(vec![("callers", items("x", 2)), ("tests", items("y", 2))]);
    let mut pages = vec![page(ExpandSection::Callers), page(ExpandSection::Tests)];
    assert!(trim_largest_section(&mut result, &mut pages));
    let parsed: serde_json::Value = serde_json::from_str(&result.to_json_string()).unwrap();
    assert_eq!(parsed["callers"].as_array().unwrap().len(), 2);
    assert_eq!(parsed["tests"].as_array().unwrap().len(), 1);
    assert!(pages[1].more && !pages[0].more);
}

#[test]
fn trimming_semantic_locations_counts_the_omission() {
    let mut result = expand_answer();
    let mut pages = vec![page(ExpandSection::Inbound), page(ExpandSection::Semantic)];
    assert!(trim_largest_section(&mut result, &mut pages));
    let parsed: serde_json::Value = serde_json::from_str(&result.to_json_string()).unwrap();
    let semantic = &parsed["references"]["semantic"];
    assert_eq!(semantic["locations"].as_array().unwrap().len(), 1);
    assert_eq!(semantic["omitted_locations"], 4);
    assert_eq!(semantic["truncated"], true);
    assert_eq!(parsed["references"]["inbound"].as_array().unwrap().len(), 1);
}

#[test]
fn nothing_is_trimmed_when_every_section_is_empty() {
    let mut result = expand_answer();
    let before = result.to_json_string();
    let mut pages = vec![page(ExpandSection::Outbound)];
    assert!(!trim_largest_section(&mut result, &mut pages));
    assert_eq!(result.to_json_string(), before);
    assert!(!pages[0].more);
}

#[test]
fn an_emptied_single_section_means_one_fact_exceeds_the_budget() {
    let result = expand_answer();
    let emptied = vec![SectionPage { section: ExpandSection::Outbound, offset: 4, more: true }];
    assert!(fact_exceeds_budget(&result, ExpandSection::Outbound, &emptied));
    assert!(!fact_exceeds_budget(&result, ExpandSection::All, &emptied));
    let kept = vec![SectionPage { section: ExpandSection::Callers, offset: 0, more: true }];
    assert!(!fact_exceeds_budget(&result, ExpandSection::Callers, &kept));
}

#[test]
fn source_text_is_replaced_by_an_explicit_omission() {
    let mut result = obj(vec![("source", obj(vec![("text", s("fn main() {}")), ("start_line", JsonValue::Number(JsonNumber::PosInt(1)))]))]);
    assert!(omit_source_text(&mut result));
    assert_eq!(
        result.to_json_string(),
        r#"{"source":{"reason":"response_budget","status":"omitted","truncated":true}}"#
    );
    assert!(!omit_source_text(&mut result));
}

fn section_cursor(snapshot: Option<&str>) -> codefacts::service::PageCursor {
    codefacts::service::PageCursor {
        version: 1,
        generation: 9,
        offset: 2,
        scope: "semantic-request".to_string(),
        semantic_snapshot: snapshot.map(str::to_string),
    }
}

#[test]
fn semantic_cursor_rejects_changed_results_without_a_source_refresh() {
    let current = expand_page_offset(
        ExpandSection::Semantic,
        Some(Ok(section_cursor(Some("original-lsp-result")))),
        9,
        "semantic-request",
        Some("original-lsp-result"),
    );
    assert!(matches!(current, Ok(PageOffset::Current(2))));
    let changed = expand_page_offset(
        ExpandSection::Semantic,
        Some(Ok(section_cursor(Some("original-lsp-result")))),
        9,
        "semantic-request",
        Some("changed-lsp-result"),
    );
    assert!(matches!(changed, Ok(PageOffset::Stale)));
}

#[test]
fn a_cursor_continues_one_section_only() {
    assert_eq!(
        expand_page_offset(ExpandSection::All, Some(Ok(section_cursor(None))), 9, "semantic-request", None),
        Err(CodeFactsError::Mcp("Use the section named in next with its cursor.".into()))
    );
    assert_eq!(
        expand_page_offset(ExpandSection::Callees, Some(Ok(section_cursor(None))), 9, "semantic-request", None),
        Ok(PageOffset::Current(2))
    );
    assert_eq!(
        expand_page_offset(ExpandSection::Callees, Some(Ok(section_cursor(None))), 10, "semantic-request", None),
        Ok(PageOffset::Stale)
    );
    assert!(expand_page_offset(ExpandSection::Callees, Some(Ok(section_cursor(None))), 9, "other", None).is_err());
    assert_eq!(expand_page_offset(ExpandSection::All, None, 9, "x", None), Ok(PageOffset::Current(0)));
}

fn callee(i: usize) -> JsonValue {
    obj(vec![
        ("from", obj(vec![("id", s("lib.rs::function:entry:1"))])),
        (
            "to",
            obj(vec![(
                "id",
                s(&format!("lib.rs::function:helper_{i:03}_with_a_descriptive_identifier_for_the_callsite:{}", i + 100)),
            )]),
        ),
        ("evidence", obj(vec![("file_path", s("lib.rs")), ("start_line", JsonValue::Number(JsonNumber::PosInt(i as u64 + 2)))])),
    ])
}

fn entry_answer(n: usize) -> JsonValue {
    obj(vec![
        ("status", s("ok")),
        ("definition", obj(vec![("id", s("lib.rs::function:entry:1")), ("name", s("entry"))])),
        ("section", s("all")),
        ("callees", JsonValue::Array((0..n).map(callee).collect())),
    ])
}

fn context() -> PageContext {
    PageContext {
        section: ExpandSection::All,
        generation: 3,
        repository_root: "/repo".to_string(),
        node_id: "lib.rs::function:entry:1".to_string(),
        semantic_snapshot: None,
    }
}

#[test]
fn a_small_page_is_presented_whole_without_continuations() {
    let pages = vec![SectionPage { section: ExpandSection::Callees, offset: 0, more: false }];
    let page = bound_expand_page(entry_answer(2), pages, &context()).expect("fits");
    let parsed: serde_json::Value = serde_json::from_str(&page.to_json_string()).unwrap();
    assert_eq!(parsed["format"], "compact");
    assert_eq!(parsed["max_bytes"], 16384);
    assert_eq!(parsed["truncated"], false);
    assert_eq!(parsed["next"], serde_json::Value::Object(serde_json::Map::new()));
    assert_eq!(parsed["callees"].as_array().unwrap().len(), 2);
    assert!(parsed["callees"][0].get("from").is_none());
}

#[test]
fn budget_trims_a_dense_section_and_issues_its_cursor() {
    let pages = vec![SectionPage { section: ExpandSection::Callees, offset: 0, more: false }];
    let page = bound_expand_page(entry_answer(200), pages, &context()).expect("trimmed page");
    let text = page.to_json_string();
    assert!(text.len() <= 16384, "{} bytes", text.len());
    let parsed: serde_json::Value = serde_json::from_str(&text).unwrap();
    let kept = parsed["callees"].as_array().unwrap().len();
    assert!(kept > 0 && kept < 200);
    assert_eq!(parsed["truncated"], true);
    let cursor = parsed["next"]["callees"].as_str().expect("callees cursor");
    let decoded: serde_json::Value = serde_json::from_slice(&hex::decode(cursor).unwrap()).unwrap();
    assert_eq!(decoded["offset"], kept);
    assert_eq!(decoded["generation"], 3);
    assert_eq!(decoded["semantic_snapshot"], serde_json::Value::Null);
}

#[test]
fn a_single_fact_over_budget_is_refused() {
    let huge = obj(vec![
        ("status", s("ok")),
        ("definition", obj(vec![("id", s("x")), ("doc", s(&"y".repeat(20000)))])),
        ("callees", JsonValue::Array(vec![])),
    ]);
    let pages = vec![SectionPage { section: ExpandSection::Callees, offset: 0, more: false }];
    assert_eq!(
        bound_expand_page(huge, pages, &context()).unwrap_err(),
        CodeFactsError::Mcp("One fact exceeds the compact response budget; request format=full.".into())
    );
}
