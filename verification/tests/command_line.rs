use codefacts::cli::{parse_arguments, usage};
use codefacts::lsp::LspMode;

fn args(values: &[&str]) -> Vec<String> {
    values.iter().map(|value| value.to_string()).collect()
}

const USAGE: &str = "Usage: codefacts mcp [--root <default-repository>] [--state <external-sqlite-path>] [--lsp <auto|off>]";

#[test]
fn usage_names_every_option() {
    assert_eq!(usage(), USAGE);
}

#[test]
fn bare_mcp_command_serves_without_a_default_root() {
    let parsed = parse_arguments(&args(&["mcp"])).expect("mcp alone");
    assert_eq!(parsed.root, None);
    assert_eq!(parsed.state, None);
    assert_eq!(parsed.lsp_mode, LspMode::Auto);
}

#[test]
fn options_are_read_in_any_order_and_the_last_value_wins() {
    let parsed = parse_arguments(&args(&[
        "mcp", "--lsp", "off", "--state", "/tmp/a.sqlite", "--root", "/repo", "--root", "/other",
    ]))
    .expect("valid options");
    assert_eq!(parsed.root.as_deref(), Some("/other"));
    assert_eq!(parsed.state.as_deref(), Some("/tmp/a.sqlite"));
    assert_eq!(parsed.lsp_mode, LspMode::Off);
}

#[test]
fn missing_or_unknown_command_prints_usage() {
    assert_eq!(parse_arguments(&args(&[])).unwrap_err(), USAGE);
    assert_eq!(parse_arguments(&args(&["--help"])).unwrap_err(), USAGE);
    assert_eq!(parse_arguments(&args(&["-h"])).unwrap_err(), USAGE);
    assert_eq!(
        parse_arguments(&args(&["serve"])).unwrap_err(),
        format!("unknown command 'serve'.\n{USAGE}")
    );
}

#[test]
fn malformed_options_are_refused_with_their_message() {
    assert_eq!(parse_arguments(&args(&["mcp", "--root"])).unwrap_err(), "--root requires a path");
    assert_eq!(parse_arguments(&args(&["mcp", "--state"])).unwrap_err(), "--state requires a path");
    assert_eq!(parse_arguments(&args(&["mcp", "--lsp"])).unwrap_err(), "--lsp requires auto or off");
    assert_eq!(
        parse_arguments(&args(&["mcp", "--lsp", "on"])).unwrap_err(),
        "--lsp must be 'auto' or 'off'"
    );
    assert_eq!(parse_arguments(&args(&["mcp", "--root", "/r", "-h"])).unwrap_err(), USAGE);
    assert_eq!(
        parse_arguments(&args(&["mcp", "--verbose"])).unwrap_err(),
        format!("unknown argument '--verbose'.\n{USAGE}")
    );
}

#[test]
fn external_state_requires_a_default_root() {
    assert_eq!(
        parse_arguments(&args(&["mcp", "--state", "/tmp/s.sqlite"])).unwrap_err(),
        "--state requires --root; dynamic project roots use independent external state files"
    );
    let parsed = parse_arguments(&args(&["mcp", "--root", "/repo", "--state", "/tmp/s.sqlite"]))
        .expect("state with root");
    assert_eq!(parsed.root.as_deref(), Some("/repo"));
}
