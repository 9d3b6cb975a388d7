use codefacts::lsp::{
    file_uri_from_path, frame_header, path_from_file_uri, provider_command, provider_for,
    reference_position, symbol_position, HeaderBlock, HeaderStep, LspManager, LspMode, LspProvider,
    SemanticReferenceResult, PROBE_TIMEOUT_MS,
};
use codefacts::types::{CodeNode, Language, NodeKind};

fn node(name: &str) -> CodeNode {
    CodeNode {
        id: "function:src/lib.rs:target:1".to_string(),
        name: name.to_string(),
        qualified_name: None,
        kind: NodeKind::Function,
        file_path: "src/lib.rs".to_string(),
        start_line: 1,
        end_line: 1,
        start_column: 0,
        end_column: 1,
        language: Language::Rust,
        body: None,
        documentation: None,
        exported: Some(true),
    }
}

#[test]
fn lsp_mode_parsing_is_deliberately_small() {
    assert_eq!(LspMode::parse("auto"), Some(LspMode::Auto));
    assert_eq!(LspMode::parse("off"), Some(LspMode::Off));
    assert_eq!(LspMode::parse("required"), None);
}

#[test]
fn deferred_lsp_report_is_compact() {
    let manager = LspManager::new(LspMode::Auto);
    let report: serde_json::Value =
        serde_json::from_str(&manager.report(&[Language::Rust], false, false).to_json().to_json_string())
            .expect("serialize deferred LSP report");
    assert_eq!(report["mode"], "auto");
    assert!(report.get("behavior").is_none());
    assert_eq!(report["servers"][0]["status"], "deferred");
    assert!(report["servers"][0].get("detail").is_none());
}

#[test]
fn version_probe_budget_stays_within_interactive_expand_expectations() {
    assert!(PROBE_TIMEOUT_MS <= 250);
}

#[test]
fn typescript_provider_uses_the_platform_launcher() {
    let provider = provider_for(Language::TypeScript).expect("TypeScript provider");
    assert_eq!(provider_command(provider, true), "typescript-language-server.cmd");
    assert_eq!(provider_command(provider, false), "typescript-language-server");
}

#[test]
fn lsp_messages_round_trip_through_content_length_framing() {
    let mut original = serde_json::Map::new();
    original.insert("jsonrpc".to_string(), serde_json::Value::from("2.0"));
    original.insert("id".to_string(), serde_json::Value::from(7));
    original.insert("result".to_string(), serde_json::Value::Array(Vec::new()));
    let original = serde_json::Value::Object(original);
    let body = serde_json::to_vec(&original).expect("write test LSP message");
    let mut bytes = frame_header(body.len()).into_bytes();
    bytes.extend_from_slice(&body);

    let text = String::from_utf8(bytes.clone()).expect("UTF-8 frame");
    let mut rest = text.as_str();
    let mut block = HeaderBlock::new();
    let content_length = loop {
        let end = rest.find('\n').expect("header line") + 1;
        let line = &rest[..end];
        rest = &rest[end..];
        match block.line(line) {
            HeaderStep::Continue => {}
            HeaderStep::Body(n) => break n,
            HeaderStep::Failed(m) => panic!("read framed LSP message: {m}"),
        }
    };
    let parsed: serde_json::Value =
        serde_json::from_slice(&rest.as_bytes()[..content_length]).expect("one message");
    assert_eq!(parsed, original);
}

#[test]
fn semantic_position_uses_utf16_character_offsets() {
    let position =
        symbol_position("\u{1F600}target() {}\n", &node("target")).expect("symbol position");
    assert_eq!(position.line, 0);
    assert_eq!(position.character, 2);
}

#[test]
fn file_uri_rejects_remote_hosts_and_decodes_spaces() {
    assert!(path_from_file_uri("file://server/share/lib.rs").is_none());
    assert_eq!(
        path_from_file_uri("file:///repo/my%20file.rs"),
        Some("/repo/my file.rs".to_string())
    );
}

#[test]
fn disabled_lsp_answers_without_any_probe() {
    let manager = LspManager::new(LspMode::Off);
    for language in [Language::Rust, Language::Java, Language::Markdown] {
        assert!(matches!(manager.reference_provider(language), Err(SemanticReferenceResult::Disabled)));
    }
}

#[test]
fn reference_position_reports_why_no_query_can_start() {
    match reference_position(LspProvider::RustAnalyzer, None, &node("target")) {
        Err(SemanticReferenceResult::Failed { provider, message }) => {
            assert_eq!(provider, "rust-analyzer");
            assert_eq!(message, "could not read the indexed symbol file");
        }
        other => panic!("unexpected {other:?}"),
    }
    match reference_position(
        LspProvider::TypeScriptLanguageServer,
        Some("fn other() {}\n"),
        &node("target"),
    ) {
        Err(SemanticReferenceResult::NotApplicable { provider, message }) => {
            assert_eq!(provider, "typescript-language-server");
            assert_eq!(
                message,
                "the indexed definition range did not contain the symbol identifier"
            );
        }
        other => panic!("unexpected {other:?}"),
    }
    let position = reference_position(
        LspProvider::RustAnalyzer,
        Some("pub fn target() {}\n"),
        &node("target"),
    )
    .expect("symbol position");
    assert_eq!(position.line, 0);
    assert_eq!(position.character, 7);
}

#[test]
fn local_paths_round_trip_through_file_uris() {
    for path in ["/repo/my file.rs", "/repo/caf\u{e9}/x#1.rs", "/"] {
        let uri = file_uri_from_path(path, false);
        assert!(uri.starts_with("file:///"));
        assert_eq!(path_from_file_uri(&uri), Some(path.to_string()));
        assert_eq!(path_from_file_uri(&file_uri_from_path(path, true)), Some(path.to_string()));
    }
    assert_eq!(file_uri_from_path("/repo/my file.rs", false), "file:///repo/my%20file.rs");
}
