use codefacts::lsp::SemanticReferenceResult;
use codefacts::service::pages::SemanticFacts;
use codefacts::service::results::{
    no_static_path_result, path_found_result, path_resolution_result, same_symbol_path_result, semantic_status,
    semantic_success, unresolved_reference_report,
};
use codefacts::service::{
    Evidence, Freshness, RelationshipFact, SemanticLocationFact, SymbolFact, UnresolvedReferenceFact,
};

fn evidence(file: &str, line: u32, hash: Option<&str>) -> Evidence {
    Evidence {
        file_path: file.to_string(),
        start_line: line,
        end_line: line,
        source_hash: hash.map(str::to_string),
        extractor: "tree-sitter".to_string(),
        confidence: "static".to_string(),
    }
}

fn symbol(name: &str, line: u32) -> SymbolFact {
    SymbolFact {
        id: format!("lib.rs::function:{name}:{line}"),
        name: name.to_string(),
        qualified_name: None,
        kind: "function".to_string(),
        language: "rust".to_string(),
        evidence: evidence("lib.rs", line, Some("abc")),
    }
}

fn freshness() -> Freshness {
    Freshness {
        status: "fresh",
        repository_root: "/repo".to_string(),
        generation: 4,
        files_indexed: 1,
        files_skipped: 2,
        relationships_rebound: 0,
        duration_ms: 7,
    }
}

const FRESHNESS: &str = r#"{"duration_ms":7,"files_indexed":1,"files_skipped":2,"generation":4,"relationships_rebound":0,"repository_root":"/repo","status":"fresh"}"#;
const HELPER: &str = r#"{"evidence":{"confidence":"static","end_line":1,"extractor":"tree-sitter","file_path":"lib.rs","source_hash":"abc","start_line":1},"id":"lib.rs::function:helper:1","kind":"function","language":"rust","name":"helper","qualified_name":null}"#;

#[test]
fn freshness_and_symbol_facts_have_their_json_shape() {
    assert_eq!(freshness().to_json().to_json_string(), FRESHNESS);
    assert_eq!(symbol("helper", 1).to_json().to_json_string(), HELPER);
    let mut negative = freshness();
    negative.generation = -1;
    assert!(negative.to_json().to_json_string().contains(r#""generation":-1"#));
}

#[test]
fn relationship_resolution_is_written_only_when_present() {
    let mut relationship = RelationshipFact {
        kind: "calls".to_string(),
        from: symbol("entry", 3),
        to: symbol("helper", 1),
        evidence: evidence("lib.rs", 4, None),
        resolution: None,
    };
    let plain = relationship.to_json().to_json_string();
    assert!(!plain.contains("resolution"));
    assert!(plain.starts_with(r#"{"evidence":{"confidence":"static","end_line":4,"extractor":"tree-sitter","file_path":"lib.rs","source_hash":null,"start_line":4},"from":"#));
    relationship.resolution = Some("ambiguous_name".to_string());
    assert!(relationship.to_json().to_json_string().contains(r#""kind":"calls","resolution":"ambiguous_name","to":"#));
}

#[test]
fn unresolved_path_endpoints_are_reported_by_parameter() {
    let missing = path_resolution_result(&freshness(), "from", None);
    assert_eq!(
        missing.to_json_string(),
        format!(r#"{{"freshness":{FRESHNESS},"message":"No indexed symbol matches this endpoint.","parameter":"from","status":"not_found"}}"#)
    );
    let candidates = vec![symbol("helper", 1)];
    let ambiguous = path_resolution_result(&freshness(), "to", Some(&candidates));
    assert_eq!(
        ambiguous.to_json_string(),
        format!(r#"{{"freshness":{FRESHNESS},"matches":[{HELPER}],"message":"Path endpoints must resolve to one confirmed symbol.","parameter":"to","status":"ambiguous"}}"#)
    );
}

#[test]
fn found_paths_longer_than_the_limit_report_only_their_length() {
    let path = vec![symbol("a", 1), symbol("b", 2), symbol("c", 3)];
    let long = path_found_result(&freshness(), &path[0], &path[2], &path, &Vec::new(), 2);
    let text = long.to_json_string();
    assert!(text.contains(r#""maximum_path_length":2"#));
    assert!(text.contains(r#""path_length":3"#));
    assert!(text.contains(r#""status":"path_too_long""#));
    assert!(!text.contains(r#""path":"#));
    let short = path_found_result(&freshness(), &path[0], &path[2], &path, &Vec::new(), 3);
    let text = short.to_json_string();
    assert!(text.contains(r#""relationship_kind":"calls","relationships":[],"status":"ok"}"#));
    assert!(text.contains(r#""path":[{"evidence""#));
}

#[test]
fn trivial_and_missing_paths() {
    let same = same_symbol_path_result(&freshness(), &symbol("helper", 1));
    assert_eq!(
        same.to_json_string(),
        format!(r#"{{"freshness":{FRESHNESS},"path":[{HELPER}],"relationships":[],"status":"ok"}}"#)
    );
    let none = no_static_path_result(&freshness(), &symbol("helper", 1), &symbol("helper", 1));
    assert!(none.to_json_string().contains(
        r#""message":"No bounded static calls path was found. This does not establish runtime unreachability.","status":"no_static_path""#
    ));
}

#[test]
fn unresolved_reference_samples_are_bounded() {
    let facts: Vec<UnresolvedReferenceFact> = (0..21)
        .map(|i| UnresolvedReferenceFact {
            specifier: format!("./missing_{i}"),
            kind: "import".to_string(),
            evidence: evidence("src/app.ts", i + 1, Some("h")),
        })
        .collect();
    let report = unresolved_reference_report(&facts);
    let parsed: serde_json::Value = serde_json::from_str(&report.to_json_string()).expect("JSON");
    assert_eq!(parsed["count"], 21);
    assert_eq!(parsed["samples"].as_array().expect("samples").len(), 20);
    assert_eq!(parsed["samples"][0]["specifier"], "./missing_0");
    assert_eq!(parsed["truncated"], true);
    let few = unresolved_reference_report(&facts[..3].iter().map(|f| UnresolvedReferenceFact {
        specifier: f.specifier.clone(),
        kind: f.kind.clone(),
        evidence: evidence("src/app.ts", f.evidence.start_line, Some("h")),
    }).collect());
    let parsed: serde_json::Value = serde_json::from_str(&few.to_json_string()).expect("JSON");
    assert_eq!(parsed["samples"].as_array().expect("samples").len(), 3);
    assert_eq!(parsed["truncated"], false);
}

#[test]
fn semantic_answers_name_their_status() {
    let disabled = semantic_status(&SemanticReferenceResult::Disabled).expect("status");
    assert_eq!(
        disabled.to_json_string(),
        r#"{"message":"Semantic LSP references are disabled by --lsp off.","status":"disabled"}"#
    );
    let failed = semantic_status(&SemanticReferenceResult::Failed {
        provider: "rust-analyzer",
        message: "timed out".to_string(),
    })
    .expect("status");
    assert_eq!(
        failed.to_json_string(),
        r#"{"message":"timed out","provider":"rust-analyzer","status":"failed"}"#
    );
    assert!(semantic_status(&SemanticReferenceResult::Success { provider: "rust-analyzer", locations: Vec::new() })
        .is_none());
    let facts = SemanticFacts {
        facts: vec![SemanticLocationFact { evidence: evidence("lib.rs", 2, Some("abc")), start_column: 4, end_column: 10 }],
        omitted: 1,
    };
    let success = semantic_success("rust-analyzer", &facts);
    assert_eq!(
        success.to_json_string(),
        r#"{"locations":[{"end_column":10,"evidence":{"confidence":"static","end_line":2,"extractor":"tree-sitter","file_path":"lib.rs","source_hash":"abc","start_line":2},"start_column":4}],"omitted_locations":1,"position_encoding":"utf-16","provider":"rust-analyzer","status":"ok","truncated":true}"#
    );
}

#[test]
fn index_results_summarize_in_one_line() {
    let result = codefacts::service::IndexResult {
        files_indexed: 12,
        files_skipped: 3,
        nodes_created: 140,
        edges_created: 95,
        relationships_rebound: 0,
        duration_ms: 20000000000000000000000,
    };
    assert_eq!(
        result.summary(),
        "Indexed 12 files (3 skipped): 140 nodes, 95 edges in 20000000000000000000000ms"
    );
}

#[test]
fn expand_answers_group_relationships_under_references() {
    let caller = RelationshipFact {
        kind: "calls".to_string(),
        from: symbol("entry", 3),
        to: symbol("helper", 1),
        evidence: evidence("lib.rs", 4, Some("abc")),
        resolution: None,
    };
    let semantic = semantic_status(&SemanticReferenceResult::Disabled).expect("status");
    let answer = codefacts::service::results::expand_result(
        &freshness(),
        &symbol("helper", 1),
        codefacts::json::JsonValue::Null,
        &vec![caller],
        &Vec::new(),
        &Vec::new(),
        &Vec::new(),
        semantic,
        &vec![symbol("helper_test", 9)],
        20,
    );
    let parsed: serde_json::Value = serde_json::from_str(&answer.to_json_string()).expect("JSON");
    assert_eq!(parsed["status"], "ok");
    assert_eq!(parsed["bounded_by"], 20);
    assert_eq!(parsed["callers"][0]["from"]["name"], "entry");
    assert_eq!(parsed["callees"].as_array().expect("callees").len(), 0);
    assert_eq!(parsed["references"]["semantic"]["status"], "disabled");
    assert!(parsed["section"].is_null());
    assert_eq!(parsed["tests"][0]["name"], "helper_test");
    assert_eq!(parsed["definition"]["name"], "helper");
}
