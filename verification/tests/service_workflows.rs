use codefacts::error::CodeFactsError;
use codefacts::lsp::LspLocation;
use codefacts::service::cursor::{cursor_bytes, encode_page_cursor, page_scope, state_file_name};
use codefacts::service::pages::{
    filter_nodes_by_scope, finish_search_page, outline_page, plan_search_page, relationship_page,
    resolve_from_matches, semantic_location_facts, SymbolResolution,
};
use codefacts::service::path::{confirmed_calls, PathSearch};
use codefacts::service::{bounded_limit, SymbolScope, PATH_SEARCH_VISIT_LIMIT};
use codefacts::types::{CodeEdge, CodeNode, EdgeKind, Language, NodeKind};

fn node(kind: NodeKind, name: &str, file: &str, start: u32, end: u32, column: u32) -> CodeNode {
    CodeNode {
        id: format!("{}:{}:{}:{}", kind.as_str(), file, name, start),
        name: name.to_string(),
        qualified_name: None,
        kind,
        file_path: file.to_string(),
        start_line: start,
        end_line: end,
        start_column: column,
        end_column: column + 1,
        language: Language::Rust,
        body: None,
        documentation: None,
        exported: None,
    }
}

fn calls(from: &str, to: &str) -> CodeEdge {
    CodeEdge {
        source: from.to_string(),
        target: to.to_string(),
        kind: EdgeKind::Calls,
        file_path: "lib.rs".to_string(),
        line: 1,
        target_name: None,
        metadata: None,
    }
}

#[test]
fn page_sizes_default_and_clamp() {
    assert_eq!(bounded_limit(None), 20);
    assert_eq!(bounded_limit(Some(0)), 1);
    assert_eq!(bounded_limit(Some(7)), 7);
    assert_eq!(bounded_limit(Some(500)), 50);
}

#[test]
fn exact_matches_come_first_and_full_text_fills_the_page() {
    let exact = (0..3).map(|i| node(NodeKind::Function, "f", &format!("{i}.rs"), 1, 1, 0)).collect::<Vec<_>>();
    let plan = plan_search_page(&exact, 1, 2);
    assert_eq!(plan.nodes.len(), 2);
    assert_eq!(plan.nodes[0].file_path, "1.rs");
    assert_eq!(plan.fts, Some((0, 1)));

    let later = plan_search_page(&exact, 5, 2);
    assert!(later.nodes.is_empty());
    assert_eq!(later.fts, Some((2, 3)));

    let full = plan_search_page(&exact, 0, 2);
    assert_eq!(full.nodes.len(), 3);
    assert_eq!(full.fts, None);

    let fetched = vec![node(NodeKind::Function, "g", "x.rs", 1, 1, 0)];
    let page = finish_search_page(plan.nodes, fetched, "f", 1, 2);
    assert_eq!(page.results.len(), 2);
    assert_eq!(page.next_offset, Some(3));

    let last = finish_search_page(Vec::new(), vec![node(NodeKind::Function, "g", "x.rs", 1, 1, 0)], "f", 4, 2);
    assert_eq!(last.results.len(), 1);
    assert_eq!(last.next_offset, None);
}

#[test]
fn search_fills_remaining_slots_without_repeating_the_exact_name() {
    let exact = vec![node(NodeKind::Function, "agent_turn", "lib.rs", 100, 100, 0)];
    let plan = plan_search_page(&exact, 0, 3);
    let fetched = vec![
        node(NodeKind::Function, "agent_turn", "lib.rs", 100, 100, 0),
        node(NodeKind::Function, "noise_0", "lib.rs", 101, 101, 0),
        node(NodeKind::Function, "noise_1", "lib.rs", 102, 102, 0),
        node(NodeKind::Function, "noise_2", "lib.rs", 103, 103, 0),
    ];
    let page = finish_search_page(plan.nodes, fetched, "agent_turn", 0, 3);
    let names = page.results.iter().map(|n| n.name.as_str()).collect::<Vec<_>>();
    assert_eq!(names, vec!["agent_turn", "noise_0", "noise_1"]);
    assert_eq!(page.next_offset, Some(3));
}

#[test]
fn top_level_scope_drops_variables_inside_functions_of_the_same_file() {
    let function = node(NodeKind::Function, "run", "a.rs", 1, 10, 0);
    let local = node(NodeKind::Variable, "x", "a.rs", 2, 2, 4);
    let global = node(NodeKind::Variable, "y", "a.rs", 20, 20, 0);
    let elsewhere = node(NodeKind::Variable, "z", "b.rs", 2, 2, 4);
    let all = vec![function.clone(), local.clone(), global.clone(), elsewhere.clone()];
    let kept = filter_nodes_by_scope(all.clone(), SymbolScope::TopLevel, &all);
    assert_eq!(kept, vec![function, global, elsewhere]);
    assert_eq!(filter_nodes_by_scope(all.clone(), SymbolScope::All, &all), all);
}

#[test]
fn outlines_are_in_source_order_and_paged() {
    let nodes = vec![
        node(NodeKind::Function, "c", "a.rs", 9, 9, 0),
        node(NodeKind::Function, "a", "a.rs", 1, 1, 4),
        node(NodeKind::Struct, "s", "a.rs", 1, 1, 0),
        node(NodeKind::Function, "b", "a.rs", 5, 5, 0),
    ];
    let page = outline_page(&nodes, None, SymbolScope::TopLevel, 0, 2);
    let names = page.symbols.iter().map(|n| n.name.as_str()).collect::<Vec<_>>();
    assert_eq!(names, ["s", "a"]);
    assert!(page.truncated);
    assert_eq!(page.next_offset, Some(2));

    let rest = outline_page(&nodes, None, SymbolScope::TopLevel, 2, 2);
    let names = rest.symbols.iter().map(|n| n.name.as_str()).collect::<Vec<_>>();
    assert_eq!(names, ["b", "c"]);
    assert!(!rest.truncated);
    assert_eq!(rest.next_offset, None);

    let functions = outline_page(&nodes, Some(NodeKind::Struct), SymbolScope::All, 0, 10);
    assert_eq!(functions.symbols.len(), 1);
}

#[test]
fn symbol_arguments_resolve_to_one_none_or_an_ambiguity() {
    let a = node(NodeKind::Function, "f", "a.rs", 1, 1, 0);
    let b = node(NodeKind::Function, "f", "b.rs", 1, 1, 0);
    assert!(matches!(resolve_from_matches(Vec::new(), None), SymbolResolution::NotFound));
    match resolve_from_matches(vec![a.clone(), b.clone()], Some("b.rs")) {
        SymbolResolution::One(n) => assert_eq!(n, b),
        _ => panic!("one match expected"),
    }
    match resolve_from_matches(vec![a.clone(), b.clone()], None) {
        SymbolResolution::Ambiguous(v) => assert_eq!(v.len(), 2),
        _ => panic!("ambiguity expected"),
    }
    let many = (0..60).map(|i| node(NodeKind::Function, "f", &format!("{i}.rs"), 1, 1, 0)).collect::<Vec<_>>();
    match resolve_from_matches(many, None) {
        SymbolResolution::Ambiguous(v) => assert_eq!(v.len(), 50),
        _ => panic!("ambiguity expected"),
    }
    assert!(matches!(resolve_from_matches(vec![a], Some("c.rs")), SymbolResolution::NotFound));
}

#[test]
fn relationship_pages_skip_missing_symbols_before_counting() {
    let present = [true, false, true, true, false, true];
    assert_eq!(relationship_page(&present, 0, 2), vec![0, 2]);
    assert_eq!(relationship_page(&present, 1, 2), vec![2, 3]);
    assert_eq!(relationship_page(&present, 3, 5), vec![5]);
    assert_eq!(relationship_page(&present, 9, 5), Vec::<usize>::new());
    assert_eq!(relationship_page(&present, 1, 0), vec![2, 3, 5]);
}

#[test]
fn semantic_locations_become_bounded_repository_facts() {
    let location = |line: u32| LspLocation {
        uri: format!("file:///repo/{line}.rs"),
        start_line: line,
        start_character: 2,
        end_line: line,
        end_character: 8,
    };
    let locations = vec![location(0), location(1), location(2), location(u32::MAX)];
    let files = vec![
        Some(("0.rs".to_string(), "h0".to_string())),
        None,
        Some(("2.rs".to_string(), "h2".to_string())),
        Some(("3.rs".to_string(), "h3".to_string())),
    ];
    let page = semantic_location_facts(&locations, &files, "rust-analyzer", 2);
    assert_eq!(page.facts.len(), 2);
    assert_eq!(page.omitted, 2);
    assert_eq!(page.facts[0].evidence.start_line, 1);
    assert_eq!(page.facts[0].evidence.extractor, "lsp:rust-analyzer");
    assert_eq!(page.facts[0].evidence.confidence, "semantic");
    assert_eq!(page.facts[1].evidence.file_path, "2.rs");
    assert_eq!(page.facts[1].start_column, 2);

    let all = semantic_location_facts(&locations, &files, "rust-analyzer", 10);
    assert_eq!(all.facts.len(), 3);
    assert_eq!(all.facts[2].evidence.start_line, u32::MAX);
}

#[test]
fn path_search_finds_a_shortest_chain_breadth_first() {
    let mut search = PathSearch::new("a", "d");
    assert!(!search.is_trivial());
    let frontier = search.next_frontier().expect("first frontier");
    assert_eq!(frontier, vec!["a".to_string()]);
    assert!(!search.absorb(&[calls("a", "b"), calls("a", "c")]));
    let frontier = search.next_frontier().expect("second frontier");
    assert_eq!(frontier, vec!["b".to_string(), "c".to_string()]);
    assert!(search.absorb(&[calls("b", "a"), calls("c", "d"), calls("b", "d")]));
    let (ids, edges) = search.reconstruct().expect("path");
    assert_eq!(ids, vec!["a".to_string(), "c".to_string(), "d".to_string()]);
    assert_eq!(edges, vec![calls("a", "c"), calls("c", "d")]);
}

#[test]
fn path_search_ends_when_nothing_is_left_to_visit() {
    let mut search = PathSearch::new("a", "z");
    assert!(PathSearch::new("x", "x").is_trivial());
    search.next_frontier().expect("first frontier");
    assert!(!search.absorb(&[calls("a", "b")]));
    search.next_frontier().expect("second frontier");
    assert!(!search.absorb(&[]));
    assert!(search.next_frontier().is_none());
    assert!(search.reconstruct().is_err());
    assert!(PATH_SEARCH_VISIT_LIMIT >= 50);
}

#[test]
fn page_scopes_hash_their_parts_and_cursors_spell_json() {
    let scope = page_scope(&["search", "/repo", "needle"]);
    assert_eq!(scope.len(), 64);
    assert_ne!(scope, page_scope(&["search", "/repo", "needle2"]));
    assert_ne!(page_scope(&["ab", "c"]), page_scope(&["a", "bc"]));

    let cursor = encode_page_cursor(-3, 20, "s");
    let bytes = cursor_bytes(&cursor).expect("hex cursor");
    assert_eq!(
        String::from_utf8(bytes).unwrap(),
        "{\"version\":1,\"generation\":-3,\"offset\":20,\"scope\":\"s\"}"
    );
    assert_eq!(
        cursor_bytes("zz"),
        Err(CodeFactsError::Other("cursor is not valid CodeFacts page data".into()))
    );
    assert!(cursor_bytes("abc").is_err());
}

#[test]
fn state_files_are_named_by_the_root_digest() {
    let name = state_file_name("/repo");
    assert!(name.ends_with(".sqlite"));
    assert_eq!(name.len(), 24 + ".sqlite".len());
    assert_ne!(name, state_file_name("/other"));
}

#[test]
fn only_confirmed_static_calls_carry_a_path() {
    let mut polymorphic = calls("invoke", "execute");
    polymorphic.metadata = Some(vec![
        ("confidence".to_string(), "heuristic".to_string()),
        ("resolution".to_string(), "polymorphic".to_string()),
    ]);
    let mut reference = calls("a", "b");
    reference.kind = EdgeKind::References;
    let mut confirmed = calls("entry", "helper");
    confirmed.metadata = Some(vec![("confidence".to_string(), "static".to_string())]);
    let kept = confirmed_calls(&[calls("a", "c"), polymorphic, reference, confirmed.clone()]);
    assert_eq!(kept, vec![calls("a", "c"), confirmed]);
}
