use codefacts::indexer::pipeline::sha256_hex;
use codefacts::indexer::run::{
    changed_target_names, collects_file, index_result, is_always_skipped_dir, is_unchanged, keeps_entry,
    pass_nodes, run_steps, stale_paths, RunSteps, MAX_FILE_SIZE,
};
use codefacts::types::{CodeNode, Language, NodeKind};

fn node(name: &str, file: &str) -> CodeNode {
    CodeNode {
        id: format!("function:{}:{}", file, name),
        name: name.to_string(),
        qualified_name: None,
        kind: NodeKind::Function,
        file_path: file.to_string(),
        start_line: 1,
        end_line: 2,
        start_column: 0,
        end_column: 1,
        language: Language::TypeScript,
        body: None,
        documentation: None,
        exported: None,
    }
}

fn strings(v: &[&str]) -> Vec<String> {
    v.iter().map(|s| s.to_string()).collect()
}

#[test]
fn dependency_and_output_directories_are_skipped() {
    for name in ["node_modules", ".git", "vendor", "target", "dist", "__pycache__", ".cache"] {
        assert!(is_always_skipped_dir(name), "{name}");
    }
    for name in ["src", "lib", "Target", "node_modules2", ""] {
        assert!(!is_always_skipped_dir(name), "{name}");
    }
}

#[test]
fn walk_keeps_files_named_like_skipped_directories() {
    assert!(!keeps_entry(true, Some("node_modules")));
    assert!(keeps_entry(false, Some("node_modules")));
    assert!(keeps_entry(true, Some("src")));
    assert!(keeps_entry(true, None));
}

#[test]
fn only_supported_files_within_the_size_limit_are_collected() {
    assert_eq!(MAX_FILE_SIZE, 2 * 1024 * 1024);
    assert!(collects_file(true, true, Some(0)));
    assert!(collects_file(true, true, Some(MAX_FILE_SIZE)));
    assert!(!collects_file(true, true, Some(MAX_FILE_SIZE + 1)));
    assert!(!collects_file(true, true, None));
    assert!(!collects_file(true, false, Some(10)));
    assert!(!collects_file(false, true, Some(10)));
}

#[test]
fn unchanged_files_are_skipped_only_by_incremental_runs() {
    let hash = sha256_hex("export function hello() {}\n");
    assert!(is_unchanged(true, Some(hash.as_str()), &hash));
    assert!(!is_unchanged(false, Some(hash.as_str()), &hash));
    assert!(!is_unchanged(true, None, &hash));
    let changed = sha256_hex("export function hello() { return 1; }\n");
    assert!(!is_unchanged(true, Some(changed.as_str()), &hash));
}

#[test]
fn stale_paths_are_the_stored_files_no_longer_walked() {
    let stored = strings(&["src/a.ts", "src/b.py", "src/c.rs"]);
    let current = strings(&["src/b.py", "src/d.go"]);
    assert_eq!(stale_paths(&stored, &current), strings(&["src/a.ts", "src/c.rs"]));
    assert!(stale_paths(&stored, &stored).is_empty());
    assert_eq!(stale_paths(&stored, &[]), stored);
}

#[test]
fn changed_names_are_sorted_and_distinct() {
    let removed = vec![node("zeta", "gone.ts"), node("alpha", "gone.ts")];
    let existing = vec![node("beta", "a.ts"), node("delta", "b.ts")];
    let reparsed = strings(&["a.ts"]);
    let parsed = vec![node("gamma", "a.ts"), node("alpha", "a.ts")];
    assert_eq!(
        changed_target_names(&removed, &existing, &reparsed, &parsed, true),
        strings(&["alpha", "beta", "gamma", "zeta"])
    );
    assert_eq!(
        changed_target_names(&removed, &existing, &reparsed, &parsed, false),
        strings(&["alpha", "gamma", "zeta"])
    );
    assert!(changed_target_names(&[], &existing, &[], &[], true).is_empty());
}

#[test]
fn incremental_index_keeps_symbols_of_files_not_parsed_again() {
    let existing = vec![node("old_a", "a.ts"), node("kept_b", "b.ts")];
    let parsed = vec![node("new_a", "a.ts")];
    let reparsed = strings(&["a.ts"]);
    let names = |nodes: Vec<CodeNode>| nodes.into_iter().map(|n| n.name).collect::<Vec<_>>();
    assert_eq!(names(pass_nodes(&parsed, &existing, &reparsed, true)), vec!["new_a", "kept_b"]);
    assert_eq!(names(pass_nodes(&parsed, &existing, &reparsed, false)), vec!["new_a"]);
}

#[test]
fn follow_up_steps_depend_on_what_changed() {
    let none = RunSteps {
        rebind_targets: false,
        resolve_imports: false,
        mark_full_pass_done: false,
        advance_generation: false,
    };
    assert_eq!(run_steps(true, 0, 0), none);
    assert_eq!(run_steps(false, 0, 0), RunSteps { mark_full_pass_done: true, ..none });
    assert_eq!(
        run_steps(true, 2, 0),
        RunSteps { rebind_targets: true, resolve_imports: true, advance_generation: true, ..none }
    );
    assert_eq!(
        run_steps(false, 0, 3),
        RunSteps { resolve_imports: true, mark_full_pass_done: true, advance_generation: true, ..none }
    );
}

#[test]
fn index_result_sums_the_stored_files() {
    let r = index_result(&[(3, 4), (5, 0)], 2, 1, 6, 42);
    assert_eq!(r.files_indexed, 2);
    assert_eq!(r.files_skipped, 2);
    assert_eq!(r.nodes_created, 8);
    assert_eq!(r.edges_created, 5);
    assert_eq!(r.relationships_rebound, 6);
    assert_eq!(r.duration_ms, 42);
    assert_eq!(r.summary(), "Indexed 2 files (2 skipped): 8 nodes, 5 edges in 42ms");
    let empty = index_result(&[], 0, 0, 0, 0);
    assert_eq!((empty.files_indexed, empty.nodes_created, empty.edges_created), (0, 0, 0));
}
