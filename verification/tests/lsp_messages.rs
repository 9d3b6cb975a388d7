use codefacts::json::{JsonNumber, JsonValue};
use codefacts::lsp::{
    did_open_params, frame_header, initialize_params, notification_message, references_params, request_message,
    response_step, HeaderBlock, HeaderStep, LspPosition, ResponseStep,
};
use codefacts::types::Language;

fn number(n: u64) -> JsonValue {
    JsonValue::Number(JsonNumber::PosInt(n))
}

fn text(s: &str) -> JsonValue {
    JsonValue::String(s.to_string())
}

fn object(members: Vec<(&str, JsonValue)>) -> JsonValue {
    let mut value = JsonValue::object();
    for (key, member) in members {
        value.insert(key.to_string(), member);
    }
    value
}

#[test]
fn requests_and_notifications_carry_the_json_rpc_envelope() {
    let request = request_message(3, "textDocument/references", JsonValue::Null);
    assert_eq!(
        request.to_json_string(),
        r#"{"id":3,"jsonrpc":"2.0","method":"textDocument/references","params":null}"#
    );
    let notification = notification_message("initialized", JsonValue::object());
    assert_eq!(
        notification.to_json_string(),
        r#"{"jsonrpc":"2.0","method":"initialized","params":{}}"#
    );
}

#[test]
fn initialize_parameters_ask_for_utf16_and_static_references() {
    let params = initialize_params("file:///repo");
    assert_eq!(
        params.to_json_string(),
        [
            r#"{"capabilities":{"general":{"positionEncodings":["utf-16"]},"#,
            r#""textDocument":{"references":{"dynamicRegistration":false}}},"#,
            r#""clientInfo":{"name":"codefacts"},"processId":null,"rootUri":"file:///repo","#,
            r#""workspaceFolders":[{"name":"codefacts","uri":"file:///repo"}]}"#,
        ]
        .join("")
    );
}

#[test]
fn document_and_reference_parameters_name_the_symbol_position() {
    let open = did_open_params("file:///repo/a.tsx", Language::Tsx, "let a = 1;\n");
    assert_eq!(
        open.to_json_string(),
        r#"{"textDocument":{"languageId":"typescriptreact","text":"let a = 1;\n","uri":"file:///repo/a.tsx","version":1}}"#
    );
    let references = references_params("file:///repo/a.rs", LspPosition { line: 4, character: 9 });
    assert_eq!(
        references.to_json_string(),
        r#"{"context":{"includeDeclaration":true},"position":{"character":9,"line":4},"textDocument":{"uri":"file:///repo/a.rs"}}"#
    );
}

#[test]
fn responses_to_other_requests_are_skipped() {
    let other = object(vec![("id", number(2)), ("result", JsonValue::Null)]);
    assert!(matches!(response_step(&other, 3, "initialize"), ResponseStep::Skip));
    let notification = object(vec![("method", text("window/logMessage"))]);
    assert!(matches!(response_step(&notification, 3, "initialize"), ResponseStep::Skip));
    let string_id = object(vec![("id", text("3")), ("result", JsonValue::Null)]);
    assert!(matches!(response_step(&string_id, 3, "initialize"), ResponseStep::Skip));
}

#[test]
fn the_matching_response_yields_its_result_or_its_error() {
    let answer = object(vec![("id", number(3)), ("result", JsonValue::Array(vec![]))]);
    match response_step(&answer, 3, "textDocument/references") {
        ResponseStep::Result(value) => assert_eq!(value.to_json_string(), "[]"),
        other => panic!("unexpected {other:?}"),
    }
    let failure = object(vec![
        ("error", object(vec![("code", number(1)), ("message", text("boom"))])),
        ("id", number(3)),
    ]);
    match response_step(&failure, 3, "textDocument/references") {
        ResponseStep::Failed(message) => assert_eq!(
            message,
            r#"LSP request 'textDocument/references' returned an error: {"code":1,"message":"boom"}"#
        ),
        other => panic!("unexpected {other:?}"),
    }
    let empty = object(vec![("id", number(3))]);
    match response_step(&empty, 3, "initialize") {
        ResponseStep::Failed(message) => assert_eq!(message, "LSP request 'initialize' returned no result"),
        other => panic!("unexpected {other:?}"),
    }
}

#[test]
fn header_block_remembers_the_last_content_length() {
    let mut block = HeaderBlock::new();
    assert_eq!(block.line("Content-Length: 10\r\n"), HeaderStep::Continue);
    assert_eq!(block.line("Content-Type: application/vscode-jsonrpc\r\n"), HeaderStep::Continue);
    assert_eq!(block.line("content-length:  12 \r\n"), HeaderStep::Continue);
    assert_eq!(block.line("\r\n"), HeaderStep::Body(12));
}

#[test]
fn header_block_errors_are_reported() {
    let mut block = HeaderBlock::new();
    assert!(block.end_of_stream().is_ok());
    assert_eq!(
        block.line("\r\n"),
        HeaderStep::Failed("LSP message omitted Content-Length".to_string())
    );
    assert_eq!(
        block.line("Content-Length: many\r\n"),
        HeaderStep::Failed("LSP Content-Length was invalid".to_string())
    );
    assert_eq!(block.line("Content-Length: 5\r\n"), HeaderStep::Continue);
    assert_eq!(
        block.end_of_stream(),
        Err("LSP stream ended before its header block finished".to_string())
    );
}

#[test]
fn framed_headers_read_back_as_their_body_length() {
    for len in [0usize, 7, 1234, usize::MAX] {
        let header = frame_header(len);
        let (first, second) = header.split_at(header.len() - 2);
        assert!(first.ends_with('\n'));
        assert_eq!(first.matches('\n').count(), 1);
        let mut block = HeaderBlock::new();
        assert_eq!(block.line("Content-Length: 99\r\n"), HeaderStep::Continue);
        assert_eq!(block.line(first), HeaderStep::Continue);
        assert_eq!(block.line(second), HeaderStep::Body(len));
    }
}
