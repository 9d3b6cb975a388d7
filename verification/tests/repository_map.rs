use codefacts::json::JsonValue;
use codefacts::lsp::{LspManager, LspMode};
use codefacts::service::results::map_result;
use codefacts::service::Freshness;
use codefacts::types::{CodeNode, Language, NodeKind};

fn node(name: &str, kind: NodeKind, language: Language) -> CodeNode {
    CodeNode {
        id: format!("x::{name}"),
        name: name.to_string(),
        qualified_name: None,
        kind,
        file_path: "x".to_string(),
        start_line: 1,
        end_line: 1,
        start_column: 0,
        end_column: 0,
        language,
        body: None,
        documentation: None,
        exported: None,
    }
}

#[test]
fn map_counts_files_symbols_and_languages_explicitly() {
    let freshness = Freshness {
        status: "fresh",
        repository_root: "/repo".to_string(),
        generation: 2,
        files_indexed: 1,
        files_skipped: 2,
        relationships_rebound: 0,
        duration_ms: 5,
    };
    let nodes = vec![
        node("a", NodeKind::Function, Language::TypeScript),
        node("b", NodeKind::Function, Language::TypeScript),
        node("Intro", NodeKind::Heading, Language::Markdown),
        node("main", NodeKind::Function, Language::Rust),
    ];
    let file_counts = vec![("markdown".to_string(), 1), ("rust".to_string(), 1), ("typescript".to_string(), 2)];
    let lsp = LspManager::new(LspMode::Off).report(&[Language::Rust], false, false);
    let unresolved = JsonValue::object();
    let map = map_result(&freshness, 4, 4, 3, &nodes, &file_counts, unresolved, &lsp);
    let parsed: serde_json::Value = serde_json::from_str(&map.to_json_string()).expect("JSON");
    assert_eq!(parsed["files"], 4);
    assert_eq!(parsed["files_with_facts"], 4);
    assert_eq!(parsed["indexed_files"], 4);
    assert_eq!(parsed["files_indexed_this_refresh"], 1);
    assert_eq!(parsed["language_file_counts"], parsed["languages"]);
    assert_eq!(parsed["language_file_counts"]["typescript"], 2);
    assert_eq!(parsed["language_symbol_counts"]["typescript"], 2);
    assert_eq!(parsed["language_symbol_counts"]["markdown"], 1);
    assert_eq!(parsed["symbol_kinds"]["function"], 3);
    assert_eq!(parsed["symbol_kinds"]["heading"], 1);
    assert_eq!(parsed["relationships"], 3);
    assert_eq!(parsed["symbols"], 4);
    assert_eq!(parsed["repository"], "/repo");
    assert_eq!(parsed["lsp"]["mode"], "off");
    assert_eq!(parsed["lsp"]["servers"].as_array().expect("servers").len(), 0);
    assert_eq!(parsed["freshness"]["generation"], 2);
    let text = map.to_json_string();
    assert!(text.starts_with(r#"{"files":4,"files_indexed_this_refresh":1,"files_with_facts":4,"freshness":"#));
    assert!(text.contains(r#""language_symbol_counts":{"markdown":1,"rust":1,"typescript":2},"languages":"#));
}
