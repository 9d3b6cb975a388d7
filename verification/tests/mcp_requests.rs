use codefacts::error::CodeFactsError;
use codefacts::json::{JsonNumber, JsonValue};
use codefacts::lsp::parse_locations;
use codefacts::mcp::{
    complete_result, json_rpc_error, legacy_protocol_version, optional_limit,
    optional_node_kind, optional_offset, optional_string, optional_symbol_scope, parse_tool_call,
    required_string, route_request, select_protocol, supported_protocol_versions, tool_error,
    tool_request, tool_result, tools_list_result, ProtocolSelection, RequestStep, ResponseFormat, ToolRequest,
};
use codefacts::service::expand::ExpandSection;
use codefacts::service::SymbolScope;
use codefacts::types::NodeKind;

fn s(text: &str) -> JsonValue {
    JsonValue::String(text.to_string())
}

fn n(value: u64) -> JsonValue {
    JsonValue::Number(JsonNumber::PosInt(value))
}

/// An object from members, sorted by key as a JSON map keeps them.
fn obj(members: Vec<(&str, JsonValue)>) -> JsonValue {
    let mut members = members
        .into_iter()
        .map(|(k, v)| (k.to_string(), v))
        .collect::<Vec<_>>();
    members.sort_by(|a, b| a.0.cmp(&b.0));
    JsonValue::Object(members)
}

#[test]
fn page_arguments_validate_without_silent_coercion() {
    let zero_limit = obj(vec![("limit", n(0))]);
    assert!(optional_limit(&zero_limit).is_err());

    let negative_offset = obj(vec![("offset", JsonValue::Number(JsonNumber::NegInt(-1)))]);
    assert!(optional_offset(&negative_offset).is_err());

    let invalid_kind = obj(vec![("kind", s("const"))]);
    assert!(optional_node_kind(&invalid_kind).is_err());

    let arguments = obj(vec![("kind", s("constant")), ("offset", n(0))]);
    assert_eq!(optional_node_kind(&arguments).expect("valid kind"), Some(NodeKind::Constant));
    assert_eq!(optional_offset(&arguments).expect("valid offset"), Some(0));

    let invalid_scope = obj(vec![("scope", s("locals_only"))]);
    assert!(optional_symbol_scope(&invalid_scope).is_err());
    let valid_scope = obj(vec![("scope", s("all"))]);
    assert_eq!(optional_symbol_scope(&valid_scope).expect("valid scope"), Some(SymbolScope::All));
}

#[test]
fn argument_errors_name_the_argument() {
    let arguments = obj(vec![
        ("empty", s("")),
        ("limit", JsonValue::Number(JsonNumber::Float("2.5".into()))),
        ("nothing", JsonValue::Null),
        ("number", n(3)),
        ("offset", n(u64::MAX)),
    ]);
    assert_eq!(
        required_string(&arguments, "empty"),
        Err(CodeFactsError::Mcp("'empty' must be a non-empty string".into()))
    );
    assert_eq!(
        required_string(&arguments, "missing"),
        Err(CodeFactsError::Mcp("'missing' must be a non-empty string".into()))
    );
    assert_eq!(optional_string(&arguments, "nothing"), Ok(None));
    assert_eq!(
        optional_string(&arguments, "number"),
        Err(CodeFactsError::Mcp("'number' must be a non-empty string when present".into()))
    );
    assert_eq!(
        optional_limit(&arguments),
        Err(CodeFactsError::Mcp("'limit' must be a positive integer when present".into()))
    );
    assert_eq!(optional_offset(&arguments), Err(CodeFactsError::Mcp("'offset' is too large".into())));
    assert_eq!(
        optional_node_kind(&obj(vec![("kind", s("Function"))])),
        Err(CodeFactsError::Mcp(
            "'kind' must be one of the supported serialized node kinds, got 'Function'".into()
        ))
    );
    assert_eq!(
        optional_symbol_scope(&obj(vec![("scope", s("local"))])),
        Err(CodeFactsError::Mcp("'scope' must be 'top_level' or 'all', got 'local'".into()))
    );
}

#[test]
fn tool_calls_name_one_of_five_tools() {
    let params = obj(vec![
        ("arguments", obj(vec![("limit", n(5)), ("query", s("needle")), ("repository_root", s("/repo"))])),
        ("name", s("search")),
    ]);
    let call = parse_tool_call(Some(&params)).expect("search call");
    assert_eq!(call.name, "search");
    assert_eq!(call.limit, Some(5));
    assert_eq!(call.repository_root.as_deref(), Some("/repo"));
    let arguments = tool_request(&call).expect("search request");
    assert_eq!(arguments.format, ResponseFormat::Compact);
    match arguments.request {
        ToolRequest::Search { query, kind, path_prefix, scope, offset, cursor, detail, context_limit } => {
            assert_eq!(detail, None);
            assert_eq!(context_limit, None);
            assert_eq!(query, "needle");
            assert_eq!(kind, None);
            assert_eq!(path_prefix, None);
            assert_eq!(scope, SymbolScope::TopLevel);
            assert_eq!(offset, 0);
            assert_eq!(cursor, None);
        }
        other => panic!("unexpected request {other:?}"),
    }

    let unknown = obj(vec![("name", s("grep"))]);
    assert_eq!(
        parse_tool_call(Some(&unknown)).unwrap_err(),
        CodeFactsError::Mcp(
            "unknown tool 'grep'; CodeFacts exposes only map, search, outline, expand, and path".into()
        )
    );
    assert_eq!(
        parse_tool_call(None).unwrap_err(),
        CodeFactsError::Mcp("tools/call requires object params".into())
    );
    let path = obj(vec![("arguments", obj(vec![("from", s("a"))])), ("name", s("path"))]);
    let call = parse_tool_call(Some(&path)).expect("path call");
    assert_eq!(
        tool_request(&call).unwrap_err(),
        CodeFactsError::Mcp("'to' must be a non-empty string".into())
    );
}

fn modern_request(method: &str, version: &str) -> JsonValue {
    obj(vec![
        ("id", n(1)),
        ("method", s(method)),
        (
            "params",
            obj(vec![(
                "_meta",
                obj(vec![
                    ("io.modelcontextprotocol/clientCapabilities", obj(vec![])),
                    ("io.modelcontextprotocol/protocolVersion", s(version)),
                ]),
            )]),
        ),
    ])
}

#[test]
fn protocol_eras_follow_the_request_metadata() {
    let legacy = obj(vec![("id", n(1)), ("method", s("initialize"))]);
    assert_eq!(select_protocol(&legacy), ProtocolSelection::Legacy);
    assert_eq!(select_protocol(&modern_request("tools/list", "2026-07-28")), ProtocolSelection::Modern);
    assert_eq!(
        select_protocol(&modern_request("tools/list", "2030-01-01")),
        ProtocolSelection::Unsupported("2030-01-01".into())
    );
    let bare_discover = obj(vec![("id", n(1)), ("method", s("server/discover"))]);
    assert_eq!(
        select_protocol(&bare_discover),
        ProtocolSelection::Invalid(
            "2026-07-28 requests require params._meta with protocolVersion and clientCapabilities".into()
        )
    );
    assert_eq!(supported_protocol_versions(), vec!["2026-07-28", "2025-11-25", "2024-11-05"]);
    let original = obj(vec![("params", obj(vec![("protocolVersion", s("2024-11-05"))]))]);
    assert_eq!(legacy_protocol_version(&original), "2024-11-05");
    assert_eq!(legacy_protocol_version(&legacy), "2025-11-25");
}

#[test]
fn requests_are_routed_by_method_and_era() {
    match route_request(&modern_request("server/discover", "2026-07-28")) {
        RequestStep::Done(Some(response)) => {
            let text = response.to_json_string();
            assert!(text.starts_with("{\"id\":1,\"jsonrpc\":\"2.0\",\"result\":{\"_meta\":"), "{text}");
            assert!(text.contains("\"resultType\":\"complete\""), "{text}");
            assert!(text.contains("\"supportedVersions\":[\"2026-07-28\""), "{text}");
        }
        other => panic!("unexpected step {other:?}"),
    }
    let unknown = obj(vec![("id", n(2)), ("method", s("resources/list"))]);
    match route_request(&unknown) {
        RequestStep::Done(Some(response)) => assert_eq!(
            response.to_json_string(),
            "{\"error\":{\"code\":-32601,\"message\":\"method not found\"},\"id\":2,\"jsonrpc\":\"2.0\"}"
        ),
        other => panic!("unexpected step {other:?}"),
    }
    let notification = obj(vec![("method", s("notifications/initialized"))]);
    assert!(matches!(route_request(&notification), RequestStep::Done(None)));
    let call = obj(vec![("id", n(3)), ("method", s("tools/call")), ("params", obj(vec![]))]);
    assert!(matches!(route_request(&call), RequestStep::CallTool(Some(_))));
    let list = obj(vec![("id", n(4)), ("method", s("tools/list"))]);
    assert!(matches!(route_request(&list), RequestStep::ListTools));
    let no_method = obj(vec![("id", n(5))]);
    match route_request(&no_method) {
        RequestStep::Done(Some(response)) => {
            assert!(response.to_json_string().contains("\"code\":-32600"))
        }
        other => panic!("unexpected step {other:?}"),
    }
}

#[test]
fn results_and_errors_have_their_envelopes() {
    let value = obj(vec![("status", s("ok"))]);
    assert_eq!(
        tool_result(value).to_json_string(),
        "{\"content\":[{\"text\":\"{\\\"status\\\":\\\"ok\\\"}\",\"type\":\"text\"}],\"isError\":false,\"structuredContent\":{\"status\":\"ok\"}}"
    );
    assert_eq!(
        tool_error("bad").to_json_string(),
        "{\"content\":[{\"text\":\"bad\",\"type\":\"text\"}],\"isError\":true}"
    );
    assert_eq!(
        json_rpc_error(JsonValue::Null, -32700, "parse \"error\"").to_json_string(),
        "{\"error\":{\"code\":-32700,\"message\":\"parse \\\"error\\\"\"},\"id\":null,\"jsonrpc\":\"2.0\"}"
    );
    let completed = complete_result(obj(vec![("_meta", obj(vec![("trace", s("t"))])), ("tools", JsonValue::Array(vec![]))]));
    assert_eq!(
        completed.to_json_string(),
        "{\"_meta\":{\"io.modelcontextprotocol/serverInfo\":{\"name\":\"codefacts\",\"version\":\"0.1.6\"},\"trace\":\"t\"},\"resultType\":\"complete\",\"tools\":[]}"
    );
}

#[test]
fn json_text_escapes_strings_and_spells_numbers() {
    let value = JsonValue::Array(vec![
        s("a\"b\\c\n\u{1}"),
        JsonValue::Number(JsonNumber::NegInt(-42)),
        JsonValue::Number(JsonNumber::Float("1.5".into())),
        JsonValue::Bool(true),
        JsonValue::Null,
    ]);
    assert_eq!(value.to_json_string(), "[\"a\\\"b\\\\c\\n\\u0001\",-42,1.5,true,null]");
    let copy = value.copy();
    assert_eq!(copy.to_json_string(), value.to_json_string());
    let mut object = JsonValue::object();
    object.insert("b".into(), n(2));
    object.insert("a".into(), n(1));
    object.insert("b".into(), n(3));
    assert_eq!(object.to_json_string(), "{\"a\":1,\"b\":3}");
    assert!(object.get("a").is_some());
    assert!(object.get("c").is_none());
}

#[test]
fn location_parser_accepts_standard_locations_and_location_links() {
    let position = |line: u64, character: u64| obj(vec![("character", n(character)), ("line", n(line))]);
    let range = |line: u64, from: u64, to: u64| obj(vec![("end", position(line, to)), ("start", position(line, from))]);
    let locations = parse_locations(&JsonValue::Array(vec![
        obj(vec![("range", range(1, 2, 8)), ("uri", s("file:///repo/lib.rs"))]),
        obj(vec![("targetSelectionRange", range(3, 0, 4)), ("targetUri", s("file:///repo/other.rs"))]),
    ]));
    assert_eq!(locations.len(), 2);
    assert_eq!(locations[1].uri, "file:///repo/other.rs");
    assert_eq!(locations[0].start_character, 2);
    assert_eq!(locations[0].end_character, 8);

    let too_large = parse_locations(&JsonValue::Array(vec![obj(vec![
        ("range", range(u64::from(u32::MAX) + 1, 0, 1)),
        ("uri", s("file:///repo/lib.rs")),
    ])]));
    assert!(too_large.is_empty());
    assert!(parse_locations(&JsonValue::Null).is_empty());
}

fn expand_call(arguments: JsonValue) -> codefacts::mcp::ToolCall {
    let params = obj(vec![("arguments", arguments), ("name", s("expand"))]);
    parse_tool_call(Some(&params)).expect("expand call")
}

#[test]
fn expand_refuses_an_unknown_format_and_keeps_the_known_ones() {
    let brief = expand_call(obj(vec![("format", s("brief")), ("symbol", s("invoke"))]));
    assert_eq!(
        tool_request(&brief).unwrap_err(),
        CodeFactsError::Mcp("'format' must be 'compact', 'full', or 'markdown', got 'brief'".into())
    );
    for (name, format) in
        [("compact", ResponseFormat::Compact), ("full", ResponseFormat::Full), ("markdown", ResponseFormat::Markdown)]
    {
        let call = expand_call(obj(vec![("format", s(name)), ("symbol", s("invoke"))]));
        assert_eq!(tool_request(&call).expect("known format").format, format);
    }
    let plain = expand_call(obj(vec![("symbol", s("invoke"))]));
    assert_eq!(tool_request(&plain).unwrap().format, ResponseFormat::Compact);
}

#[test]
fn expand_reads_its_section_and_cursor() {
    let call = expand_call(obj(vec![("cursor", s("0a0b")), ("section", s("callees")), ("symbol", s("entry"))]));
    match tool_request(&call).unwrap().request {
        ToolRequest::Expand { symbol, file_path, section, cursor } => {
            assert_eq!(symbol, "entry");
            assert_eq!(file_path, None);
            assert_eq!(section, ExpandSection::Callees);
            assert_eq!(cursor.as_deref(), Some("0a0b"));
        }
        other => panic!("unexpected request {other:?}"),
    }
    let bad = expand_call(obj(vec![("section", s("everything")), ("symbol", s("entry"))]));
    assert_eq!(
        tool_request(&bad).unwrap_err(),
        CodeFactsError::Mcp(
            "'section' must be one of all, callers, callees, inbound, outbound, tests, semantic, got 'everything'".into()
        )
    );
    let all = expand_call(obj(vec![("symbol", s("entry"))]));
    match tool_request(&all).unwrap().request {
        ToolRequest::Expand { section, cursor, .. } => {
            assert_eq!(section, ExpandSection::All);
            assert_eq!(cursor, None);
        }
        other => panic!("unexpected request {other:?}"),
    }
}

#[test]
fn search_reads_detail_and_context_limit() {
    let params = obj(vec![
        ("arguments", obj(vec![("context_limit", n(2)), ("detail", s("context")), ("query", s("invoke"))])),
        ("name", s("search")),
    ]);
    let call = parse_tool_call(Some(&params)).unwrap();
    match tool_request(&call).unwrap().request {
        ToolRequest::Search { detail, context_limit, .. } => {
            assert_eq!(detail.as_deref(), Some("context"));
            assert_eq!(context_limit, Some(2));
        }
        other => panic!("unexpected request {other:?}"),
    }
    let zero = obj(vec![
        ("arguments", obj(vec![("context_limit", n(0)), ("query", s("invoke"))])),
        ("name", s("search")),
    ]);
    assert_eq!(
        tool_request(&parse_tool_call(Some(&zero)).unwrap()).unwrap_err(),
        CodeFactsError::Mcp("'context_limit' must be a positive integer when present".into())
    );
}

#[test]
fn modern_tool_lists_are_not_cached() {
    let tools = JsonValue::Array(vec![]);
    let modern = tools_list_result(&modern_request("tools/list", "2026-07-28"), tools);
    assert_eq!(modern.to_json_string(), r#"{"cacheScope":"private","tools":[],"ttlMs":0}"#);
    let legacy_request = obj(vec![("id", n(1)), ("method", s("tools/list"))]);
    let legacy = tools_list_result(&legacy_request, JsonValue::Array(vec![]));
    assert_eq!(legacy.to_json_string(), r#"{"tools":[]}"#);
}
