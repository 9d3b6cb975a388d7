use codefacts::lsp::{file_uri_from_path, path_from_file_uri, LspMode};
use codefacts::service::expand::ExpandSection;
use codefacts::service::{normalized_path_prefix, relative_path, SymbolScope};
use codefacts::types::NodeKind;

#[test]
fn local_file_uri_round_trips_without_a_windows_verbatim_prefix() {
    let canonical = "/tmp/codefacts fixture/src/ü.rs";
    let uri = file_uri_from_path(canonical, false);
    assert!(uri.starts_with("file:///"), "file URI");
    assert!(!uri.contains("//?/"));
    assert_eq!(path_from_file_uri(&uri), Some(canonical.to_string()), "restored local path");

    let windows = file_uri_from_path("\\\\?\\D:\\repo\\lib.rs", true);
    assert_eq!(windows, "file:///D:/repo/lib.rs");
}

#[test]
fn spellings_read_back_as_the_values_they_spell() {
    for mode in [LspMode::Auto, LspMode::Off] {
        assert_eq!(LspMode::parse(mode.as_str()), Some(mode));
    }
    for scope in [SymbolScope::TopLevel, SymbolScope::All] {
        assert_eq!(SymbolScope::parse(scope.as_str()), Some(scope));
    }
    let mut sections = vec![ExpandSection::All];
    sections.extend(ExpandSection::parts());
    for section in sections {
        assert_eq!(ExpandSection::parse(section.as_str()), Some(section));
    }
    for kind in [
        NodeKind::Function,
        NodeKind::Class,
        NodeKind::Method,
        NodeKind::Interface,
        NodeKind::TypeAlias,
        NodeKind::Enum,
        NodeKind::Variable,
        NodeKind::Struct,
        NodeKind::Trait,
        NodeKind::Module,
        NodeKind::Property,
        NodeKind::Namespace,
        NodeKind::Constant,
        NodeKind::Heading,
        NodeKind::Endpoint,
    ] {
        assert_eq!(NodeKind::from_name(kind.as_str()), Some(kind));
    }
    assert_eq!(NodeKind::from_name("const"), None);
}

#[test]
fn accepted_relative_paths_never_climb_out() {
    assert!(relative_path("../secret").is_err());
    assert!(relative_path("src/../../x").is_err());
    assert_eq!(relative_path("src\\lib.rs").unwrap(), "src/lib.rs");
    assert_eq!(relative_path("src/..lib/x.rs").unwrap(), "src/..lib/x.rs");
    assert_eq!(normalized_path_prefix("src/").unwrap(), Some("src".to_string()));
    assert_eq!(normalized_path_prefix(".").unwrap(), None);
    assert_eq!(normalized_path_prefix("").unwrap(), None);
}

#[test]
fn trimming_agrees_with_std_on_every_whitespace_candidate() {
    for u in 0u32..0x3100 {
        if let Some(c) = char::from_u32(u) {
            let text = [c, 'x', c];
            let expected: Vec<char> = text.iter().collect::<String>().trim().chars().collect();
            assert_eq!(codefacts::text::trim_chars(&text), expected, "U+{u:04X}");
        }
    }
}
