use codefacts::indexer::pipeline::{
    build_node_index, call_candidates, callable_candidates, candidate_group_key,
    is_endpoint_candidate, materialize_candidate_edges, rebind_static_targets,
    resolve_initial_call_candidates, resolve_target_id, sha256_hex, CandidateSet,
    MAX_AMBIGUOUS_CALL_TARGETS,
};
use codefacts::types::{CodeEdge, CodeNode, EdgeKind, Language, NodeKind};

fn node(kind: NodeKind, name: &str, file: &str, line: u32, exported: Option<bool>) -> CodeNode {
    CodeNode {
        id: format!("{}:{}:{}:{}", kind.as_str(), file, name, line),
        name: name.to_string(),
        qualified_name: None,
        kind,
        file_path: file.to_string(),
        start_line: line,
        end_line: line + 1,
        start_column: 0,
        end_column: 1,
        language: Language::TypeScript,
        body: None,
        documentation: None,
        exported,
    }
}

fn call_edge(source: &str, file: &str, line: u32, target: &str, metadata: &[(&str, &str)]) -> CodeEdge {
    CodeEdge {
        source: source.to_string(),
        target: format!("unresolved:{target}"),
        kind: EdgeKind::Calls,
        file_path: file.to_string(),
        line,
        target_name: Some(target.to_string()),
        metadata: if metadata.is_empty() {
            None
        } else {
            Some(metadata.iter().map(|(k, v)| (k.to_string(), v.to_string())).collect())
        },
    }
}

fn meta<'a>(edge: &'a CodeEdge, key: &str) -> Option<&'a str> {
    edge.metadata
        .as_ref()?
        .iter()
        .find(|(k, _)| k == key)
        .map(|(_, v)| v.as_str())
}

#[test]
fn sha256_produces_hex_string() {
    let hash = sha256_hex("hello world");
    assert_eq!(hash.len(), 64);
    assert!(hash.chars().all(|c| c.is_ascii_hexdigit()));
    assert_eq!(hash, "b94d27b9934d3e08a52e52d7da7dabfac484efe37a5380ee9088f7ace2efcde9");
}

#[test]
fn the_node_index_groups_symbols_by_name_in_input_order() {
    let a1 = node(NodeKind::Function, "a", "x.ts", 1, None);
    let b = node(NodeKind::Function, "b", "x.ts", 2, None);
    let a2 = node(NodeKind::Method, "a", "y.ts", 3, None);
    let index = build_node_index(&[a1.clone(), b.clone(), a2.clone()]);
    assert_eq!(index.get("a").unwrap(), &vec![a1, a2]);
    assert_eq!(index.get("b").unwrap(), &vec![b]);
    assert!(index.get("c").is_none());
}

#[test]
fn static_references_prefer_the_same_file_then_the_only_then_an_export() {
    let here = node(NodeKind::Function, "f", "main.ts", 1, None);
    let there = node(NodeKind::Function, "f", "lib.ts", 5, Some(true));
    let other = node(NodeKind::Function, "f", "other.ts", 9, None);
    let index = build_node_index(&[there.clone(), here.clone(), other.clone()]);
    assert_eq!(resolve_target_id("f", "main.ts", &index), here.id);
    assert_eq!(resolve_target_id("f", "x.ts", &index), there.id);
    let index = build_node_index(&[other.clone(), here.clone()]);
    assert_eq!(resolve_target_id("f", "x.ts", &index), other.id);
    let index = build_node_index(&[here.clone()]);
    assert_eq!(resolve_target_id("f", "elsewhere.ts", &index), here.id);
    assert_eq!(resolve_target_id("g", "main.ts", &index), "unresolved:g");
}

#[test]
fn endpoint_candidates_are_recognized_by_their_relation() {
    let mut e = call_edge("endpoint:r.ts:GET /:1", "r.ts", 1, "h", &[("relation", "endpoint_handler_candidate")]);
    e.kind = EdgeKind::References;
    assert!(is_endpoint_candidate(&e));
    let plain = call_edge("f", "r.ts", 1, "h", &[]);
    assert!(!is_endpoint_candidate(&plain));
}

#[test]
fn occurrence_keys_separate_fields_with_nul() {
    let e = call_edge("function:a.ts:f:1", "a.ts", 7, "g", &[]);
    assert_eq!(candidate_group_key(&e, "g"), "function:a.ts:f:1\u{0}calls\u{0}a.ts\u{0}7\u{0}g");
}

#[test]
fn constructor_calls_target_classes_and_plain_calls_callables() {
    let class = node(NodeKind::Class, "T", "b.ts", 2, None);
    let function = node(NodeKind::Function, "T", "a.ts", 1, None);
    let index = build_node_index(&[class.clone(), function.clone()]);
    let plain = call_edge("f", "c.ts", 1, "T", &[]);
    let constructor = call_edge("f", "c.ts", 1, "T", &[("constructor", "true")]);
    assert_eq!(callable_candidates(&plain, "T", &index), vec![function]);
    assert_eq!(callable_candidates(&constructor, "T", &index), vec![class]);
}

#[test]
fn call_candidate_sets_label_their_uncertainty() {
    let a = node(NodeKind::Method, "run", "a.ts", 1, None);
    let b = node(NodeKind::Method, "run", "b.ts", 1, None);
    let index = build_node_index(&[b.clone(), a.clone()]);

    let member = call_edge("f", "a.ts", 3, "run", &[("call_form", "member")]);
    let set = call_candidates(&member, "run", &index);
    assert_eq!(set.resolution.as_deref(), Some("polymorphic"));
    assert_eq!(set.targets, vec![a.clone(), b.clone()]);
    assert_eq!(set.candidate_count, 2);

    let same_file = call_edge("f", "b.ts", 3, "run", &[]);
    let set = call_candidates(&same_file, "run", &index);
    assert_eq!(set.resolution, None);
    assert_eq!(set.targets, vec![b.clone()]);

    let elsewhere = call_edge("f", "c.ts", 3, "run", &[]);
    let set = call_candidates(&elsewhere, "run", &index);
    assert_eq!(set.resolution.as_deref(), Some("ambiguous_name"));
    assert_eq!(set.targets, vec![a.clone()]);
    assert_eq!(set.candidate_count, 2);
}

#[test]
fn materialized_candidates_are_bounded_and_labelled() {
    let template = call_edge("f", "a.ts", 1, "g", &[("call_form", "member")]);
    let targets = (0..40)
        .map(|i| node(NodeKind::Method, "g", &format!("f{i:02}.ts"), 1, None))
        .collect::<Vec<_>>();
    let edges = materialize_candidate_edges(
        &template,
        CandidateSet { targets, resolution: Some("polymorphic".into()), candidate_count: 40 },
    );
    assert_eq!(edges.len(), MAX_AMBIGUOUS_CALL_TARGETS);
    assert_eq!(edges[0].target, "method:f00.ts:g:1");
    assert_eq!(meta(&edges[0], "confidence"), Some("heuristic"));
    assert_eq!(meta(&edges[0], "resolution"), Some("polymorphic"));
    assert_eq!(meta(&edges[0], "candidate_count"), Some("40"));
    assert_eq!(meta(&edges[0], "candidates_truncated"), Some("true"));
    assert_eq!(meta(&edges[0], "call_form"), Some("member"));

    let plain = materialize_candidate_edges(
        &template,
        CandidateSet {
            targets: vec![node(NodeKind::Function, "g", "a.ts", 2, None)],
            resolution: None,
            candidate_count: 1,
        },
    );
    assert_eq!(plain.len(), 1);
    assert_eq!(plain[0].metadata, template.metadata);
}

#[test]
fn initial_binding_expands_only_labelled_calls() {
    let a = node(NodeKind::Method, "run", "a.ts", 1, None);
    let b = node(NodeKind::Method, "run", "b.ts", 1, None);
    let index = build_node_index(&[a, b]);
    let member = call_edge("f", "c.ts", 3, "run", &[("call_form", "member")]);
    let mut import = call_edge("f", "c.ts", 1, "run", &[]);
    import.kind = EdgeKind::Imports;
    let unknown = call_edge("f", "c.ts", 4, "nothing", &[]);
    let out = resolve_initial_call_candidates(vec![import.clone(), member, unknown.clone()], &index);
    assert_eq!(out.len(), 4);
    assert_eq!(out[0], import);
    assert_eq!(out[1].target, "method:a.ts:run:1");
    assert_eq!(out[2].target, "method:b.ts:run:1");
    assert_eq!(out[3], unknown);
}

#[test]
fn rebinding_replaces_changed_targets_and_rebuilds_candidate_occurrences() {
    let target = node(NodeKind::Function, "helper", "lib.ts", 1, Some(true));
    let index = build_node_index(&[target.clone()]);
    let mut reference = call_edge("f", "main.ts", 2, "helper", &[]);
    reference.kind = EdgeKind::References;
    let stale_call = call_edge("f", "main.ts", 3, "helper", &[]);
    let plan = rebind_static_targets(&[reference.clone(), stale_call.clone()], &index);
    assert_eq!(plan.deleted, vec![reference.clone(), stale_call.clone()]);
    assert_eq!(plan.inserted.len(), 2);
    assert_eq!(plan.inserted[0].target, target.id);
    assert_eq!(plan.inserted[0].kind, EdgeKind::References);
    assert_eq!(plan.inserted[1].target, target.id);

    let empty = build_node_index(&[]);
    let plan = rebind_static_targets(&[stale_call.clone()], &empty);
    assert_eq!(plan.inserted.len(), 1);
    assert_eq!(plan.inserted[0].target, "unresolved:helper");
}
