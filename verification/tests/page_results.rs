use codefacts::service::cursor::encode_page_cursor;
use codefacts::service::results::{
    expand_resolution_result, outline_page_result, outline_scope, outline_stale_result, search_page_result,
    search_scope, search_stale_result, search_without_words_result,
};
use codefacts::service::{page_offset, Evidence, Freshness, PageCursor, PageOffset, SymbolFact, SymbolScope};
use codefacts::types::NodeKind;

fn freshness(generation: i64) -> Freshness {
    Freshness {
        status: "fresh",
        repository_root: "/repo".to_string(),
        generation,
        files_indexed: 0,
        files_skipped: 1,
        relationships_rebound: 0,
        duration_ms: 3,
    }
}

fn symbol(name: &str) -> SymbolFact {
    SymbolFact {
        id: format!("a.ts::function:{name}:1"),
        name: name.to_string(),
        qualified_name: Some(format!("a.{name}")),
        kind: "function".to_string(),
        language: "typescript".to_string(),
        evidence: Evidence {
            file_path: "a.ts".to_string(),
            start_line: 1,
            end_line: 2,
            source_hash: Some("h".to_string()),
            extractor: "tree-sitter".to_string(),
            confidence: "confirmed".to_string(),
        },
    }
}

fn decode(cursor: &str) -> PageCursor {
    let bytes = hex::decode(cursor).expect("hex cursor");
    let value: serde_json::Value = serde_json::from_slice(&bytes).expect("cursor JSON");
    PageCursor {
        version: value["version"].as_u64().expect("version") as u8,
        generation: value["generation"].as_i64().expect("generation"),
        offset: value["offset"].as_u64().expect("offset") as usize,
        scope: value["scope"].as_str().expect("scope").to_string(),
        semantic_snapshot: value["semantic_snapshot"].as_str().map(str::to_string),
    }
}

#[test]
fn search_pages_name_the_next_page_when_more_follow() {
    let scope = search_scope("/repo", "needle", Some(NodeKind::Function), None, SymbolScope::TopLevel);
    let results = vec![symbol("needleOne"), symbol("needleTwo")];
    let page = search_page_result(&freshness(7), "needle", SymbolScope::TopLevel, &scope, &results, 0, 2, true);
    let parsed: serde_json::Value = serde_json::from_str(&page.to_json_string()).expect("JSON");
    assert_eq!(parsed["next_offset"], 2);
    assert_eq!(parsed["bounded_by"], 2);
    assert_eq!(parsed["scope"], "top_level");
    assert_eq!(parsed["results"].as_array().expect("results").len(), 2);
    let cursor = parsed["next_cursor"].as_str().expect("cursor");
    assert_eq!(cursor, encode_page_cursor(7, 2, &scope));
    let last = search_page_result(&freshness(7), "needle", SymbolScope::All, &scope, &results, 2, 2, false);
    let parsed: serde_json::Value = serde_json::from_str(&last.to_json_string()).expect("JSON");
    assert!(parsed["next_cursor"].is_null());
    assert!(parsed["next_offset"].is_null());
    assert_eq!(parsed["offset"], 2);
}

#[test]
fn a_cursor_resumes_only_within_its_snapshot() {
    let scope = search_scope("/repo", "needle", None, Some("src"), SymbolScope::TopLevel);
    let cursor = decode(&encode_page_cursor(7, 40, &scope));
    assert_eq!(page_offset(Some(Ok(cursor)), 0, 7, &scope), Ok(PageOffset::Current(40)));
    let cursor = decode(&encode_page_cursor(7, 40, &scope));
    assert_eq!(page_offset(Some(Ok(cursor)), 0, 8, &scope), Ok(PageOffset::Stale));
    let other = search_scope("/repo", "needle", None, None, SymbolScope::TopLevel);
    assert_ne!(scope, other);
    let cursor = decode(&encode_page_cursor(7, 40, &scope));
    assert!(page_offset(Some(Ok(cursor)), 0, 7, &other).is_err());
}

#[test]
fn stale_and_wordless_searches_return_no_results() {
    let stale = search_stale_result(&freshness(2), "needle", SymbolScope::TopLevel);
    let parsed: serde_json::Value = serde_json::from_str(&stale.to_json_string()).expect("JSON");
    assert_eq!(parsed["status"], "stale_cursor");
    assert_eq!(parsed["results"], serde_json::Value::Array(Vec::new()));
    assert!(parsed["next_cursor"].is_null());
    let wordless = search_without_words_result(&freshness(2), "!!", SymbolScope::All, 5);
    let parsed: serde_json::Value = serde_json::from_str(&wordless.to_json_string()).expect("JSON");
    assert_eq!(parsed["status"], "ok");
    assert_eq!(parsed["offset"], 5);
    assert_eq!(
        parsed["message"],
        "Search needs at least one identifier or word; raw grep is not supported."
    );
}

#[test]
fn outline_pages_report_truncation_and_kind() {
    let scope = outline_scope("/repo", "src/a.ts", Some(NodeKind::Function), SymbolScope::TopLevel);
    let symbols = vec![symbol("one")];
    let page = outline_page_result(
        &freshness(3),
        "src/a.ts",
        Some(NodeKind::Function),
        SymbolScope::TopLevel,
        &scope,
        &symbols,
        0,
        1,
        true,
    );
    let parsed: serde_json::Value = serde_json::from_str(&page.to_json_string()).expect("JSON");
    assert_eq!(parsed["kind"], "function");
    assert_eq!(parsed["truncated"], true);
    assert_eq!(parsed["next_offset"], 1);
    assert_eq!(parsed["next_cursor"], encode_page_cursor(3, 1, &scope).as_str());
    let stale = outline_stale_result(&freshness(3), "src/a.ts", None, SymbolScope::All);
    let parsed: serde_json::Value = serde_json::from_str(&stale.to_json_string()).expect("JSON");
    assert!(parsed["kind"].is_null());
    assert_eq!(parsed["symbols"], serde_json::Value::Array(Vec::new()));
    assert_eq!(parsed["status"], "stale_cursor");
}

#[test]
fn expand_names_missing_and_ambiguous_symbols() {
    let missing = expand_resolution_result(&freshness(1), "nothing", None);
    let parsed: serde_json::Value = serde_json::from_str(&missing.to_json_string()).expect("JSON");
    assert_eq!(parsed["status"], "not_found");
    assert_eq!(parsed["message"], "No indexed symbol matches this identifier.");
    let candidates = vec![symbol("a"), symbol("b")];
    let ambiguous = expand_resolution_result(&freshness(1), "dup", Some(&candidates));
    let parsed: serde_json::Value = serde_json::from_str(&ambiguous.to_json_string()).expect("JSON");
    assert_eq!(parsed["status"], "ambiguous");
    assert_eq!(parsed["matches"].as_array().expect("matches").len(), 2);
    assert_eq!(parsed["symbol"], "dup");
}
