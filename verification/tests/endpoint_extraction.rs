use codefacts::indexer::endpoints::{
    extract_endpoint_edges, extract_endpoints, first_quoted_route, is_known_route_receiver,
    route_path, unquote_route, EndpointBinding, NodeIndex, SyntaxNode,
};
use codefacts::types::{CodeNode, Language, NodeKind};

/// A named syntax node spanning the `nth` occurrence of `text` in `source`.
fn span(source: &str, kind: &str, text: &str, nth: usize) -> SyntaxNode {
    let mut from = 0;
    let mut start = 0;
    for _ in 0..=nth {
        start = from + source[from..].find(text).expect("node text in source");
        from = start + 1;
    }
    let end = start + text.len();
    let position = |byte: usize| {
        let before = &source[..byte];
        let row = before.matches('\n').count() as u32;
        let column = (byte - before.rfind('\n').map(|i| i + 1).unwrap_or(0)) as u32;
        (row, column)
    };
    let (start_row, start_column) = position(start);
    let (end_row, end_column) = position(end);
    SyntaxNode {
        kind: kind.to_string(),
        start_byte: start,
        end_byte: end,
        start_row,
        start_column,
        end_row,
        end_column,
        function: None,
        object: None,
        property: None,
        arguments: None,
        named_children: Vec::new(),
    }
}

/// `receiver.method(args...)` as a call node followed by its parts, in
/// pre-order, the call node at position `at`; `nth` picks the occurrence of
/// repeated texts.
fn call_nth(
    source: &str,
    call_text: &str,
    receiver: &str,
    method: &str,
    args: &[(&str, &str, usize)],
    at: usize,
    nth: usize,
) -> Vec<SyntaxNode> {
    let mut nodes = Vec::new();
    let mut c = span(source, "call_expression", call_text, 0);
    c.function = Some(at + 1);
    c.arguments = Some(at + 4);
    nodes.push(c);
    let member_text = format!("{receiver}.{method}");
    let mut m = span(source, "member_expression", &member_text, nth);
    m.object = Some(at + 2);
    m.property = Some(at + 3);
    nodes.push(m);
    nodes.push(span(source, "identifier", receiver, nth));
    nodes.push(span(source, "property_identifier", method, nth));
    let arguments_text = &call_text[receiver.len() + method.len() + 1..];
    let mut a = span(source, "arguments", arguments_text, 0);
    a.named_children = (0..args.len()).map(|i| at + 5 + i).collect();
    nodes.push(a);
    for (kind, text, k) in args {
        nodes.push(span(source, kind, text, *k));
    }
    nodes
}

fn call(source: &str, call_text: &str, receiver: &str, method: &str, args: &[(&str, &str)], at: usize) -> Vec<SyntaxNode> {
    let args = args.iter().map(|(k, t)| (*k, *t, 0)).collect::<Vec<_>>();
    call_nth(source, call_text, receiver, method, &args, at, 0)
}

fn handler() -> CodeNode {
    CodeNode {
        id: "function:routes.ts:getUser:1".into(),
        name: "getUser".into(),
        qualified_name: None,
        kind: NodeKind::Function,
        file_path: "routes.ts".into(),
        start_line: 1,
        end_line: 1,
        start_column: 0,
        end_column: 0,
        language: Language::TypeScript,
        body: None,
        documentation: None,
        exported: Some(true),
    }
}

fn program(source: &str) -> SyntaxNode {
    span(source, "program", source, 0)
}

#[test]
fn extracts_express_route_and_resolves_a_unique_handler() {
    let source = "app.get('/users/:id', getUser);";
    let mut nodes = vec![program(source), span(source, "expression_statement", source, 0)];
    nodes.extend(call(
        source,
        "app.get('/users/:id', getUser)",
        "app",
        "get",
        &[("string", "'/users/:id'"), ("identifier", "getUser")],
        2,
    ));
    let bindings = extract_endpoints("routes.ts", Language::TypeScript, source, &nodes);
    assert_eq!(bindings.len(), 1);
    assert_eq!(bindings[0].endpoint.name, "GET /users/:id");

    let mut index = NodeIndex::new();
    index.insert("getUser".to_string(), vec![handler()]);
    let edges = extract_endpoint_edges(&bindings, &index);
    assert_eq!(edges.len(), 1);
    let metadata = edges[0].metadata.as_ref().unwrap();
    let confidence = metadata.iter().find(|(k, _)| k == "confidence").map(|(_, v)| v.as_str());
    assert_eq!(confidence, Some("heuristic"));
}

#[test]
fn extracts_spring_mapping_without_claiming_a_handler() {
    let source = "@GetMapping(\"/users/{id}\")\npublic User getUser() { return null; }";
    let nodes = vec![
        program(source),
        span(source, "method_declaration", source, 0),
        span(source, "modifiers", "@GetMapping(\"/users/{id}\")\npublic", 0),
        span(source, "annotation", "@GetMapping(\"/users/{id}\")", 0),
        span(source, "identifier", "GetMapping", 0),
        span(source, "annotation_argument_list", "(\"/users/{id}\")", 0),
        span(source, "string_literal", "\"/users/{id}\"", 0),
        span(source, "type_identifier", "User", 0),
        span(source, "identifier", "getUser", 0),
        span(source, "formal_parameters", "()", 0),
        span(source, "block", "{ return null; }", 0),
    ];
    let bindings = extract_endpoints("UserController.java", Language::Java, source, &nodes);

    assert_eq!(bindings.len(), 1);
    assert_eq!(bindings[0].endpoint.name, "GET /users/{id}");
    assert!(bindings[0].handler_names.is_empty());
}

#[test]
fn skips_route_patterns_inside_comments_and_strings() {
    let source = "const example = \"app.get('/example', fake)\";\n// app.get('/comment', fake)\napp.get('/real', realHandler);";
    let mut nodes = vec![
        program(source),
        span(source, "lexical_declaration", "const example = \"app.get('/example', fake)\";", 0),
        span(source, "variable_declarator", "example = \"app.get('/example', fake)\"", 0),
        span(source, "identifier", "example", 0),
        span(source, "string", "\"app.get('/example', fake)\"", 0),
        span(source, "string_fragment", "app.get('/example', fake)", 0),
        span(source, "comment", "// app.get('/comment', fake)", 0),
        span(source, "expression_statement", "app.get('/real', realHandler);", 0),
    ];
    let at = nodes.len();
    nodes.extend(call(
        source,
        "app.get('/real', realHandler)",
        "app",
        "get",
        &[("string", "'/real'"), ("identifier", "realHandler")],
        at,
    ));
    // The call node and its receiver text occur after the string and the
    // comment, so every span above points at the real call.
    let bindings = extract_endpoints("routes.ts", Language::TypeScript, source, &nodes);

    assert_eq!(bindings.len(), 1);
    assert_eq!(bindings[0].endpoint.name, "GET /real");
}

#[test]
fn recognizes_route_templates_and_regexes_but_not_query_parameters() {
    let source = r#"
const range = searchParams.get("range");
app.get(`/api/${version}/users`, getUsers);
router.get(/^\/api\/v\d+\/items$/, getItems);
"#;
    let mut nodes = vec![program(source)];
    let at = nodes.len();
    nodes.extend(call(
        source,
        "searchParams.get(\"range\")",
        "searchParams",
        "get",
        &[("string", "\"range\"")],
        at,
    ));
    let at = nodes.len();
    nodes.extend(call(
        source,
        "app.get(`/api/${version}/users`, getUsers)",
        "app",
        "get",
        &[("template_string", "`/api/${version}/users`"), ("identifier", "getUsers")],
        at,
    ));
    let at = nodes.len();
    nodes.extend(call(
        source,
        "router.get(/^\\/api\\/v\\d+\\/items$/, getItems)",
        "router",
        "get",
        &[("regex", "/^\\/api\\/v\\d+\\/items$/"), ("identifier", "getItems")],
        at,
    ));
    let bindings = extract_endpoints("routes.ts", Language::TypeScript, source, &nodes);

    let names = bindings
        .iter()
        .map(|binding| binding.endpoint.name.as_str())
        .collect::<Vec<_>>();
    assert_eq!(
        names,
        ["GET /api/${version}/users", "GET /^\\/api\\/v\\d+\\/items$/"]
    );
    assert!(!names.iter().any(|name| name.contains("range")));
}

#[test]
fn router_receivers_are_recognized_by_their_last_segment() {
    assert!(is_known_route_receiver("app"));
    assert!(is_known_route_receiver(" this.server "));
    assert!(is_known_route_receiver("api.UserRouter"));
    assert!(is_known_route_receiver("adminRoutes"));
    assert!(!is_known_route_receiver("searchParams"));
    assert!(!is_known_route_receiver("app.client"));
}

#[test]
fn route_literals_lose_exactly_their_quotes() {
    assert_eq!(unquote_route("'/a'"), Some("/a".to_string()));
    assert_eq!(unquote_route("`/b/${x}`"), Some("/b/${x}".to_string()));
    assert_eq!(unquote_route("''"), Some(String::new()));
    assert_eq!(unquote_route("'"), None);
    assert_eq!(unquote_route("'/a\""), None);
    assert_eq!(unquote_route("/a/"), None);
}

#[test]
fn annotation_arguments_yield_their_first_quoted_literal() {
    assert_eq!(first_quoted_route("(\"/users/{id}\")"), Some("/users/{id}".to_string()));
    assert_eq!(first_quoted_route("(value = '/x', other = \"/y\")"), Some("/x".to_string()));
    assert_eq!(first_quoted_route("(\"/a\\\"b\")"), Some("/a\\\"b".to_string()));
    assert_eq!(first_quoted_route("(\"/a\\\\\")"), Some("/a\\\\".to_string()));
    assert_eq!(first_quoted_route("(\"/open"), None);
    assert_eq!(first_quoted_route("(path)"), None);
}

#[test]
fn route_paths_follow_the_argument_kind() {
    assert_eq!(route_path("string", " '/x' "), Some("/x".to_string()));
    assert_eq!(route_path("regex", "/^a$/"), Some("/^a$/".to_string()));
    assert_eq!(route_path("identifier", "/a/b"), Some("/a/b".to_string()));
    assert_eq!(route_path("identifier", "/a"), None);
    assert_eq!(route_path("identifier", "handler"), None);
}

#[test]
fn duplicate_routes_on_one_line_become_one_endpoint() {
    let source = "app.get('/x', a); app.get('/x', b);";
    let mut nodes = vec![program(source)];
    let at = nodes.len();
    nodes.extend(call_nth(source, "app.get('/x', a)", "app", "get", &[("string", "'/x'", 0), ("identifier", "a", 0)], at, 0));
    let at = nodes.len();
    nodes.extend(call_nth(source, "app.get('/x', b)", "app", "get", &[("string", "'/x'", 1), ("identifier", "b", 0)], at, 1));
    let bindings = extract_endpoints("routes.ts", Language::TypeScript, source, &nodes);
    assert_eq!(bindings.len(), 1);
    assert_eq!(bindings[0].handler_names, vec!["a".to_string()]);
    assert_eq!(bindings[0].endpoint.id, "endpoint:routes.ts:GET /x:1");
}

#[test]
fn handler_candidates_are_callables_once_each_in_location_order() {
    let mut later = handler();
    later.id = "function:b.ts:getUser:9".into();
    later.file_path = "b.ts".into();
    let mut class = handler();
    class.id = "class:a.ts:getUser:3".into();
    class.kind = NodeKind::Class;
    let mut index = NodeIndex::new();
    index.insert("getUser".to_string(), vec![later.clone(), class, handler()]);
    let endpoint = CodeNode {
        id: "endpoint:routes.ts:GET /u:1".into(),
        name: "GET /u".into(),
        qualified_name: None,
        kind: NodeKind::Endpoint,
        file_path: "routes.ts".into(),
        start_line: 1,
        end_line: 1,
        start_column: 0,
        end_column: 10,
        language: Language::TypeScript,
        body: None,
        documentation: None,
        exported: None,
    };
    let binding = EndpointBinding {
        endpoint,
        handler_names: vec!["getUser".into(), "getUser".into(), "missing".into()],
    };
    let edges = extract_endpoint_edges(&[binding], &index);
    let targets = edges.iter().map(|e| e.target.as_str()).collect::<Vec<_>>();
    assert_eq!(targets, ["function:b.ts:getUser:9", "function:routes.ts:getUser:1"]);
    assert!(edges.iter().all(|e| e.target_name.as_deref() == Some("getUser")));
}

#[test]
fn markdown_files_declare_no_routes() {
    let source = "app.get('/x', a);";
    let mut nodes = vec![program(source)];
    nodes.extend(call(source, "app.get('/x', a)", "app", "get", &[("string", "'/x'"), ("identifier", "a")], 1));
    assert!(extract_endpoints("README.md", Language::Markdown, source, &nodes).is_empty());
    assert_eq!(extract_endpoints("r.js", Language::JavaScript, source, &nodes).len(), 1);
}
