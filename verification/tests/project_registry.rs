use codefacts::error::CodeFactsError;
use codefacts::lsp::LspMode;
use codefacts::service::registry::{check_default_state, CodeFactsRegistry};

#[test]
fn rootless_registry_requires_each_call_to_name_its_repository() {
    let registry: CodeFactsRegistry<u32> = CodeFactsRegistry::new(LspMode::Off);
    assert_eq!(registry.lsp_mode(), LspMode::Off);
    assert_eq!(
        registry.selected_root(None),
        Err(CodeFactsError::Mcp(
            "'repository_root' is required when CodeFacts was started without --root".to_string()
        ))
    );
    assert_eq!(registry.selected_root(Some("/repo".to_string())), Ok("/repo".to_string()));
    assert!(!registry.contains("/repo"));
    assert_eq!(registry.opened("/repo"), None);
}

#[test]
fn default_root_is_selected_when_a_call_names_none() {
    let registry = CodeFactsRegistry::with_default("/default".to_string(), 7u32, LspMode::Auto);
    assert_eq!(registry.selected_root(None), Ok("/default".to_string()));
    assert_eq!(registry.selected_root(Some("/other".to_string())), Ok("/other".to_string()));
    assert_eq!(registry.opened("/default"), Some(&7));
}

#[test]
fn projects_opened_later_are_kept_apart_by_root() {
    let mut registry = CodeFactsRegistry::with_default("/a".to_string(), "first".to_string(), LspMode::Auto);
    registry.insert("/b".to_string(), "second".to_string());
    assert!(registry.contains("/a"));
    assert!(registry.contains("/b"));
    assert!(!registry.contains("/c"));
    assert_eq!(registry.opened("/a").map(String::as_str), Some("first"));
    assert_eq!(registry.opened("/b").map(String::as_str), Some("second"));
}

#[test]
fn default_state_file_needs_a_default_root() {
    assert_eq!(check_default_state(true, true), Ok(()));
    assert_eq!(check_default_state(true, false), Ok(()));
    assert_eq!(check_default_state(false, false), Ok(()));
    assert_eq!(
        check_default_state(false, true),
        Err(CodeFactsError::Other(
            "--state requires --root; dynamic project roots each use their own external default state path"
                .to_string()
        ))
    );
}

#[test]
fn a_registry_opens_with_its_default_project_or_refuses_a_rootless_state_file() {
    let refused = CodeFactsRegistry::<u32>::open_with_lsp(None, true, LspMode::Auto);
    assert_eq!(
        refused.err(),
        Some(CodeFactsError::Other(
            "--state requires --root; dynamic project roots each use their own external default state path".to_string()
        ))
    );
    let rootless = CodeFactsRegistry::<u32>::open_with_lsp(None, false, LspMode::Off).expect("rootless registry");
    assert!(rootless.selected_root(None).is_err());
    assert_eq!(rootless.lsp_mode(), LspMode::Off);
    let with_default =
        CodeFactsRegistry::open_with_lsp(Some(("/repo".to_string(), 5u32)), true, LspMode::Auto).expect("registry");
    assert_eq!(with_default.selected_root(None), Ok("/repo".to_string()));
    assert_eq!(with_default.opened("/repo"), Some(&5));
    assert_eq!(with_default.lsp_mode(), LspMode::Auto);
}

#[test]
fn a_rootless_registry_refuses_a_call_without_a_root() {
    let registry = CodeFactsRegistry::<u32>::open_with_lsp(None, false, LspMode::Auto).unwrap();
    assert_eq!(
        registry.project(None),
        Err(CodeFactsError::Mcp(
            "'repository_root' is required when CodeFacts was started without --root".to_string()
        ))
    );
    assert_eq!(registry.project(Some("/repo".to_string())), Ok(None));
    let mut registry = CodeFactsRegistry::with_default("/default".to_string(), 3u32, LspMode::Auto);
    assert_eq!(registry.project(None), Ok(Some(&3)));
    registry.insert("/other".to_string(), 4);
    assert_eq!(registry.project(Some("/other".to_string())), Ok(Some(&4)));
}

#[test]
fn a_project_keeps_its_root_state_file_and_lsp_mode() {
    use_project();
}

fn use_project() {
    let facts = codefacts::service::CodeFacts::open("/repo".to_string(), "/state/abc.sqlite".to_string());
    assert_eq!(facts.root(), "/repo");
    assert_eq!(facts.database_path(), "/state/abc.sqlite");
    assert_eq!(facts.lsp().mode(), LspMode::Auto);
    let off = codefacts::service::CodeFacts::open_with_lsp("/r".to_string(), "/s".to_string(), LspMode::Off);
    assert_eq!(off.lsp().mode(), LspMode::Off);
}
