//! The MCP request protocol of the five CodeFacts tools: which protocol era a
//! request speaks, how tool arguments are validated, and the JSON-RPC
//! envelopes of results and errors. Reading requests from stdin, running the
//! tools and writing responses happen around these steps.
use vstd::prelude::*;

use crate::error::{error_view, CodeFactsError, ErrorView};
use crate::json::{
    array_of, json_get, json_text, member_get, member_insert, object1, object2, object3, object_of, JsonNumber,
    JsonValue, JsonView, NumberView,
};
use crate::service::expand::{expand_section_name, ExpandSection};
use crate::service::SymbolScope;
use crate::text::{append_chars, chars_of, string_from_chars};
use crate::types::{node_kind_name, node_kind_named, opt_view, NodeKind};

verus! {

// ---------------------------------------------------------------------------
// Tool arguments
// ---------------------------------------------------------------------------
/// `'key'` followed by `rest`: the shape of every argument error.
pub open spec fn key_message(key: Seq<char>, rest: Seq<char>) -> Seq<char> {
    "'"@ + key + rest
}

fn key_error(key: &str, rest: &str) -> (r: CodeFactsError)
    ensures
        error_view(r) == ErrorView::Mcp(key_message(key@, rest@)),
{
    let mut m = chars_of("'");
    append_chars(&mut m, chars_of(key).as_slice());
    append_chars(&mut m, chars_of(rest).as_slice());
    CodeFactsError::Mcp(string_from_chars(m.as_slice()))
}

/// A required, non-empty string argument.
pub open spec fn required_string_spec(args: JsonView, key: Seq<char>) -> Result<Seq<char>, ErrorView> {
    match json_get(args, key) {
        Some(JsonView::String(s)) => if s.len() > 0 {
            Ok(s)
        } else {
            Err(ErrorView::Mcp(key_message(key, "' must be a non-empty string"@)))
        },
        _ => Err(ErrorView::Mcp(key_message(key, "' must be a non-empty string"@))),
    }
}

/// An optional string argument: absent or null is none, otherwise it must
/// be a non-empty string.
pub open spec fn optional_string_spec(args: JsonView, key: Seq<char>) -> Result<Option<Seq<char>>, ErrorView> {
    match json_get(args, key) {
        None => Ok(None),
        Some(JsonView::Null) => Ok(None),
        Some(JsonView::String(s)) => if s.len() > 0 {
            Ok(Some(s))
        } else {
            Err(ErrorView::Mcp(key_message(key, "' must be a non-empty string when present"@)))
        },
        _ => Err(ErrorView::Mcp(key_message(key, "' must be a non-empty string when present"@))),
    }
}

/// `limit`: a positive integer when present.
pub open spec fn optional_limit_spec(args: JsonView) -> Result<Option<usize>, ErrorView> {
    match json_get(args, "limit"@) {
        None => Ok(None),
        Some(JsonView::Number(NumberView::PosInt(u))) => if u == 0 {
            Err(ErrorView::Mcp("'limit' must be a positive integer when present"@))
        } else if u > usize::MAX {
            Err(ErrorView::Mcp("'limit' is too large for this platform"@))
        } else {
            Ok(Some(u as usize))
        },
        _ => Err(ErrorView::Mcp("'limit' must be a positive integer when present"@)),
    }
}

/// `offset`: a non-negative integer that fits a signed 64-bit value.
pub open spec fn optional_offset_spec(args: JsonView) -> Result<Option<usize>, ErrorView> {
    match json_get(args, "offset"@) {
        None => Ok(None),
        Some(JsonView::Number(NumberView::PosInt(u))) => if u > usize::MAX {
            Err(ErrorView::Mcp("'offset' is too large for this platform"@))
        } else if u > i64::MAX {
            Err(ErrorView::Mcp("'offset' is too large"@))
        } else {
            Ok(Some(u as usize))
        },
        _ => Err(ErrorView::Mcp("'offset' must be a non-negative integer when present"@)),
    }
}

/// `kind`: exactly a serialized node kind when present.
pub open spec fn optional_node_kind_spec(args: JsonView) -> Result<Option<NodeKind>, ErrorView> {
    match optional_string_spec(args, "kind"@) {
        Err(e) => Err(e),
        Ok(None) => Ok(None),
        Ok(Some(k)) => match node_kind_named(k) {
            Some(nk) => Ok(Some(nk)),
            None => Err(
                ErrorView::Mcp("'kind' must be one of the supported serialized node kinds, got '"@ + k + "'"@),
            ),
        },
    }
}

/// A `kind` that is accepted names a node kind exactly.
pub open spec fn optional_node_kind_ok(args: JsonView, r: Option<NodeKind>) -> bool {
    match optional_string_spec(args, "kind"@) {
        Ok(None) => r is None,
        Ok(Some(k)) => r matches Some(nk) && node_kind_name(nk) == k,
        Err(_) => false,
    }
}

/// `kind` is refused: not a string, or no node kind is spelled so.
pub open spec fn optional_node_kind_err(args: JsonView, e: ErrorView) -> bool {
    match optional_string_spec(args, "kind"@) {
        Err(x) => e == x,
        Ok(Some(k)) => (forall|nk: NodeKind| node_kind_name(nk) != k) && e == ErrorView::Mcp(
            "'kind' must be one of the supported serialized node kinds, got '"@ + k + "'"@,
        ),
        Ok(None) => false,
    }
}

/// `scope`: `top_level` or `all` when present.
pub open spec fn optional_symbol_scope_spec(args: JsonView) -> Result<Option<SymbolScope>, ErrorView> {
    match optional_string_spec(args, "scope"@) {
        Err(e) => Err(e),
        Ok(None) => Ok(None),
        Ok(Some(s)) => if s == "top_level"@ {
            Ok(Some(SymbolScope::TopLevel))
        } else if s == "all"@ {
            Ok(Some(SymbolScope::All))
        } else {
            Err(ErrorView::Mcp("'scope' must be 'top_level' or 'all', got '"@ + s + "'"@))
        },
    }
}

/// A required, non-empty string argument.
pub fn required_string(arguments: &JsonValue, key: &str) -> (r: Result<String, CodeFactsError>)
    ensures
        match r {
            Ok(s) => required_string_spec(arguments@, key@) == Ok::<Seq<char>, ErrorView>(s@),
            Err(e) => required_string_spec(arguments@, key@) == Err::<Seq<char>, ErrorView>(error_view(e)),
        },
{
    match arguments.get(key) {
        Some(v) => match v.as_str() {
            Some(s) => if !s.is_empty() {
                Ok(s.to_owned())
            } else {
                Err(key_error(key, "' must be a non-empty string"))
            },
            None => Err(key_error(key, "' must be a non-empty string")),
        },
        None => Err(key_error(key, "' must be a non-empty string")),
    }
}

/// An optional string argument (see [`optional_string_spec`]).
pub fn optional_string(arguments: &JsonValue, key: &str) -> (r: Result<Option<String>, CodeFactsError>)
    ensures
        match r {
            Ok(s) => optional_string_spec(arguments@, key@) == Ok::<Option<Seq<char>>, ErrorView>(
                crate::types::opt_view(s),
            ),
            Err(e) => optional_string_spec(arguments@, key@) == Err::<Option<Seq<char>>, ErrorView>(
                error_view(e),
            ),
        },
{
    match arguments.get(key) {
        None => Ok(None),
        Some(v) => {
            if v.is_null() {
                return Ok(None);
            }
            match v.as_str() {
                Some(s) => if !s.is_empty() {
                    Ok(Some(s.to_owned()))
                } else {
                    Err(key_error(key, "' must be a non-empty string when present"))
                },
                None => Err(key_error(key, "' must be a non-empty string when present")),
            }
        },
    }
}

/// The `limit` argument (see [`optional_limit_spec`]).
pub fn optional_limit(arguments: &JsonValue) -> (r: Result<Option<usize>, CodeFactsError>)
    ensures
        match r {
            Ok(l) => optional_limit_spec(arguments@) == Ok::<Option<usize>, ErrorView>(l),
            Err(e) => optional_limit_spec(arguments@) == Err::<Option<usize>, ErrorView>(error_view(e)),
        },
{
    proof {
        reveal_strlit("limit");
    }
    match arguments.get("limit") {
        None => Ok(None),
        Some(v) => match v.as_u64() {
            Some(u) => if u == 0 {
                Err(CodeFactsError::Mcp("'limit' must be a positive integer when present".to_owned()))
            } else if u as u128 > usize::MAX as u128 {
                Err(CodeFactsError::Mcp("'limit' is too large for this platform".to_owned()))
            } else {
                Ok(Some(u as usize))
            },
            None => Err(CodeFactsError::Mcp("'limit' must be a positive integer when present".to_owned())),
        },
    }
}

/// The `offset` argument (see [`optional_offset_spec`]).
pub fn optional_offset(arguments: &JsonValue) -> (r: Result<Option<usize>, CodeFactsError>)
    ensures
        match r {
            Ok(o) => optional_offset_spec(arguments@) == Ok::<Option<usize>, ErrorView>(o),
            Err(e) => optional_offset_spec(arguments@) == Err::<Option<usize>, ErrorView>(error_view(e)),
        },
{
    match arguments.get("offset") {
        None => Ok(None),
        Some(v) => match v.as_u64() {
            Some(u) => if u as u128 > usize::MAX as u128 {
                Err(CodeFactsError::Mcp("'offset' is too large for this platform".to_owned()))
            } else if u > 0x7fff_ffff_ffff_ffffu64 {
                Err(CodeFactsError::Mcp("'offset' is too large".to_owned()))
            } else {
                Ok(Some(u as usize))
            },
            None => Err(
                CodeFactsError::Mcp("'offset' must be a non-negative integer when present".to_owned()),
            ),
        },
    }
}

/// The `kind` argument: exactly one serialized node kind when present.
pub fn optional_node_kind(arguments: &JsonValue) -> (r: Result<Option<NodeKind>, CodeFactsError>)
    ensures
        match r {
            Ok(k) => optional_node_kind_spec(arguments@) == Ok::<Option<NodeKind>, ErrorView>(k)
                && optional_node_kind_ok(arguments@, k),
            Err(e) => optional_node_kind_spec(arguments@) == Err::<Option<NodeKind>, ErrorView>(
                error_view(e),
            ) && optional_node_kind_err(arguments@, error_view(e)),
        },
{
    let kind = match optional_string(arguments, "kind")? {
        None => return Ok(None),
        Some(k) => k,
    };
    match NodeKind::from_name(kind.as_str()) {
        Some(k) => Ok(Some(k)),
        None => {
            let mut m = chars_of("'kind' must be one of the supported serialized node kinds, got '");
            append_chars(&mut m, chars_of(kind.as_str()).as_slice());
            append_chars(&mut m, chars_of("'").as_slice());
            Err(CodeFactsError::Mcp(string_from_chars(m.as_slice())))
        },
    }
}

/// The `scope` argument (see [`optional_symbol_scope_spec`]).
pub fn optional_symbol_scope(arguments: &JsonValue) -> (r: Result<Option<SymbolScope>, CodeFactsError>)
    ensures
        match r {
            Ok(s) => optional_symbol_scope_spec(arguments@) == Ok::<Option<SymbolScope>, ErrorView>(s),
            Err(e) => optional_symbol_scope_spec(arguments@) == Err::<Option<SymbolScope>, ErrorView>(
                error_view(e),
            ),
        },
{
    let scope = match optional_string(arguments, "scope")? {
        None => return Ok(None),
        Some(s) => s,
    };
    match SymbolScope::parse(scope.as_str()) {
        Some(s) => Ok(Some(s)),
        None => {
            let mut m = chars_of("'scope' must be 'top_level' or 'all', got '");
            append_chars(&mut m, chars_of(scope.as_str()).as_slice());
            append_chars(&mut m, chars_of("'").as_slice());
            Err(CodeFactsError::Mcp(string_from_chars(m.as_slice())))
        },
    }
}

/// How a tool's answer is presented: compact JSON (the default), the full
/// JSON with nested evidence, or Markdown.
#[derive(Debug, Clone, Copy, PartialEq, Eq, Structural)]
pub enum ResponseFormat {
    Compact,
    Full,
    Markdown,
}

/// The message that refuses an unknown `format`.
pub open spec fn format_message(f: Seq<char>) -> Seq<char> {
    "'format' must be 'compact', 'full', or 'markdown', got '"@ + f + "'"@
}

/// `format`: `compact`, `full` or `markdown` when present, else `compact`.
pub open spec fn response_format_spec(args: JsonView) -> Result<ResponseFormat, ErrorView> {
    match optional_string_spec(args, "format"@) {
        Err(e) => Err(e),
        Ok(None) => Ok(ResponseFormat::Compact),
        Ok(Some(f)) => if f == "compact"@ {
            Ok(ResponseFormat::Compact)
        } else if f == "full"@ {
            Ok(ResponseFormat::Full)
        } else if f == "markdown"@ {
            Ok(ResponseFormat::Markdown)
        } else {
            Err(ErrorView::Mcp(format_message(f)))
        },
    }
}

/// The `format` argument (see [`response_format_spec`]).
pub fn response_format(arguments: &JsonValue) -> (r: Result<ResponseFormat, CodeFactsError>)
    ensures
        match r {
            Ok(f) => response_format_spec(arguments@) == Ok::<ResponseFormat, ErrorView>(f),
            Err(e) => response_format_spec(arguments@) == Err::<ResponseFormat, ErrorView>(error_view(e)),
        },
{
    let f = match optional_string(arguments, "format")? {
        None => return Ok(ResponseFormat::Compact),
        Some(f) => f,
    };
    if crate::text::str_eq(f.as_str(), "compact") {
        Ok(ResponseFormat::Compact)
    } else if crate::text::str_eq(f.as_str(), "full") {
        Ok(ResponseFormat::Full)
    } else if crate::text::str_eq(f.as_str(), "markdown") {
        Ok(ResponseFormat::Markdown)
    } else {
        let mut m = chars_of("'format' must be 'compact', 'full', or 'markdown', got '");
        append_chars(&mut m, chars_of(f.as_str()).as_slice());
        append_chars(&mut m, chars_of("'").as_slice());
        Err(CodeFactsError::Mcp(string_from_chars(m.as_slice())))
    }
}

/// The `expand` section a name selects.
pub open spec fn section_named(s: Seq<char>) -> Option<ExpandSection> {
    if s == "all"@ {
        Some(ExpandSection::All)
    } else if s == "callers"@ {
        Some(ExpandSection::Callers)
    } else if s == "callees"@ {
        Some(ExpandSection::Callees)
    } else if s == "inbound"@ {
        Some(ExpandSection::Inbound)
    } else if s == "outbound"@ {
        Some(ExpandSection::Outbound)
    } else if s == "tests"@ {
        Some(ExpandSection::Tests)
    } else if s == "semantic"@ {
        Some(ExpandSection::Semantic)
    } else {
        None
    }
}

proof fn lemma_section_named(x: ExpandSection)
    ensures
        section_named(expand_section_name(x)) == Some(x),
{
    crate::laws::law_expand_section_names_are_distinct(x, ExpandSection::All);
    crate::laws::law_expand_section_names_are_distinct(x, ExpandSection::Callers);
    crate::laws::law_expand_section_names_are_distinct(x, ExpandSection::Callees);
    crate::laws::law_expand_section_names_are_distinct(x, ExpandSection::Inbound);
    crate::laws::law_expand_section_names_are_distinct(x, ExpandSection::Outbound);
    crate::laws::law_expand_section_names_are_distinct(x, ExpandSection::Tests);
    crate::laws::law_expand_section_names_are_distinct(x, ExpandSection::Semantic);
}

/// The message that refuses an unknown `section`.
pub open spec fn section_message(s: Seq<char>) -> Seq<char> {
    "'section' must be one of all, callers, callees, inbound, outbound, tests, semantic, got '"@ + s + "'"@
}

/// `section` of `expand`: a section's name when present, else `all`.
pub open spec fn expand_section_arg_spec(args: JsonView) -> Result<ExpandSection, ErrorView> {
    match optional_string_spec(args, "section"@) {
        Err(e) => Err(e),
        Ok(None) => Ok(ExpandSection::All),
        Ok(Some(s)) => match section_named(s) {
            Some(x) => Ok(x),
            None => Err(ErrorView::Mcp(section_message(s))),
        },
    }
}

/// The `section` argument of `expand` (see [`expand_section_arg_spec`]).
pub fn expand_section_arg(arguments: &JsonValue) -> (r: Result<ExpandSection, CodeFactsError>)
    ensures
        match r {
            Ok(x) => expand_section_arg_spec(arguments@) == Ok::<ExpandSection, ErrorView>(x),
            Err(e) => expand_section_arg_spec(arguments@) == Err::<ExpandSection, ErrorView>(error_view(e)),
        },
{
    let name = match optional_string(arguments, "section")? {
        None => return Ok(ExpandSection::All),
        Some(n) => n,
    };
    match ExpandSection::parse(name.as_str()) {
        Some(x) => {
            proof {
                lemma_section_named(x);
            }
            Ok(x)
        },
        None => {
            proof {
                if section_named(name@) is Some {
                    let x = section_named(name@)->Some_0;
                    lemma_section_named(x);
                    assert(expand_section_name(x) == name@);
                }
            }
            let mut m = chars_of(
                "'section' must be one of all, callers, callees, inbound, outbound, tests, semantic, got '",
            );
            append_chars(&mut m, chars_of(name.as_str()).as_slice());
            append_chars(&mut m, chars_of("'").as_slice());
            Err(CodeFactsError::Mcp(string_from_chars(m.as_slice())))
        },
    }
}

/// A positive integer argument named `key` when present.
pub open spec fn optional_count_spec(args: JsonView, key: Seq<char>) -> Result<Option<usize>, ErrorView> {
    match json_get(args, key) {
        None => Ok(None),
        Some(JsonView::Number(NumberView::PosInt(u))) => if u == 0 {
            Err(ErrorView::Mcp(key_message(key, "' must be a positive integer when present"@)))
        } else if u > usize::MAX {
            Err(ErrorView::Mcp(key_message(key, "' is too large for this platform"@)))
        } else {
            Ok(Some(u as usize))
        },
        _ => Err(ErrorView::Mcp(key_message(key, "' must be a positive integer when present"@))),
    }
}

/// A positive integer argument (see [`optional_count_spec`]).
pub fn optional_count(arguments: &JsonValue, key: &str) -> (r: Result<Option<usize>, CodeFactsError>)
    ensures
        match r {
            Ok(c) => optional_count_spec(arguments@, key@) == Ok::<Option<usize>, ErrorView>(c),
            Err(e) => optional_count_spec(arguments@, key@) == Err::<Option<usize>, ErrorView>(error_view(e)),
        },
{
    match arguments.get(key) {
        None => Ok(None),
        Some(v) => match v.as_u64() {
            Some(u) => if u == 0 {
                Err(key_error(key, "' must be a positive integer when present"))
            } else if u as u128 > usize::MAX as u128 {
                Err(key_error(key, "' is too large for this platform"))
            } else {
                Ok(Some(u as usize))
            },
            None => Err(key_error(key, "' must be a positive integer when present")),
        },
    }
}

// ---------------------------------------------------------------------------
// Protocol eras
// ---------------------------------------------------------------------------
/// The protocol era that the server speaks.
pub open spec fn modern_version() -> Seq<char> {
    "2026-07-28"@
}

pub open spec fn legacy_version() -> Seq<char> {
    "2025-11-25"@
}

pub open spec fn original_legacy_version() -> Seq<char> {
    "2024-11-05"@
}

pub open spec fn protocol_version_key() -> Seq<char> {
    "io.modelcontextprotocol/protocolVersion"@
}

pub open spec fn client_info_key() -> Seq<char> {
    "io.modelcontextprotocol/clientInfo"@
}

pub open spec fn client_capabilities_key() -> Seq<char> {
    "io.modelcontextprotocol/clientCapabilities"@
}

pub open spec fn server_info_key() -> Seq<char> {
    "io.modelcontextprotocol/serverInfo"@
}

/// Which protocol a request speaks.
#[derive(Debug, PartialEq, Eq)]
pub enum ProtocolSelection {
    Legacy,
    Modern,
    /// A modern request without the metadata the era requires.
    Invalid(String),
    /// A modern request that asks for another protocol version.
    Unsupported(String),
}

pub enum SelectionView {
    Legacy,
    Modern,
    Invalid(Seq<char>),
    Unsupported(Seq<char>),
}

pub open spec fn selection_view(s: ProtocolSelection) -> SelectionView {
    match s {
        ProtocolSelection::Legacy => SelectionView::Legacy,
        ProtocolSelection::Modern => SelectionView::Modern,
        ProtocolSelection::Invalid(m) => SelectionView::Invalid(m@),
        ProtocolSelection::Unsupported(v) => SelectionView::Unsupported(v@),
    }
}

/// The text of a string value.
pub open spec fn str_of(v: Option<JsonView>) -> Option<Seq<char>> {
    match v {
        Some(JsonView::String(s)) => Some(s),
        _ => None,
    }
}

/// The `params._meta` object of a request, if it has one.
pub open spec fn request_meta(request: JsonView) -> Option<JsonView> {
    match json_get(request, "params"@) {
        Some(params) => match json_get(params, "_meta"@) {
            Some(m) => if m is Object {
                Some(m)
            } else {
                None
            },
            None => None,
        },
        None => None,
    }
}

/// A modern request names `server/discover` or carries modern metadata; it
/// must name protocol version 2026-07-28, carry object client capabilities,
/// and, when it names its client, a string name and version.
pub open spec fn select_protocol_spec(request: JsonView) -> SelectionView {
    let method = str_of(json_get(request, "method"@));
    let meta = request_meta(request);
    let modern_claim = match meta {
        Some(m) => json_get(m, protocol_version_key()) is Some || json_get(m, client_info_key()) is Some
            || json_get(m, client_capabilities_key()) is Some,
        None => false,
    };
    if method != Some("server/discover"@) && !modern_claim {
        SelectionView::Legacy
    } else {
        match meta {
            None => SelectionView::Invalid(
                "2026-07-28 requests require params._meta with protocolVersion and clientCapabilities"@,
            ),
            Some(m) => match str_of(json_get(m, protocol_version_key())) {
                None => SelectionView::Invalid(
                    "2026-07-28 requests require params._meta."@ + protocol_version_key(),
                ),
                Some(version) => if version != modern_version() {
                    SelectionView::Unsupported(version)
                } else if !(json_get(m, client_capabilities_key()) matches Some(JsonView::Object(_))) {
                    SelectionView::Invalid(
                        "2026-07-28 requests require object params._meta."@ + client_capabilities_key(),
                    )
                } else {
                    match json_get(m, client_info_key()) {
                        Some(info) => if str_of(json_get(info, "name"@)) is Some && str_of(
                            json_get(info, "version"@),
                        ) is Some && info is Object {
                            SelectionView::Modern
                        } else {
                            SelectionView::Invalid(
                                "params._meta."@ + client_info_key()
                                    + " must contain string name and version when present"@,
                            )
                        },
                        None => SelectionView::Modern,
                    }
                },
            },
        }
    }
}

/// Concatenates two texts into a `String`.
fn concat(a: &str, b: &str) -> (r: String)
    ensures
        r@ == a@ + b@,
{
    let mut v = chars_of(a);
    append_chars(&mut v, chars_of(b).as_slice());
    string_from_chars(v.as_slice())
}

/// Decides which protocol era a request speaks (see
/// [`select_protocol_spec`]).
pub fn select_protocol(request: &JsonValue) -> (r: ProtocolSelection)
    ensures
        selection_view(r) == select_protocol_spec(request@),
{
    let method_is_discover = match request.get("method") {
        Some(m) => match m.as_str() {
            Some(name) => crate::text::str_eq(name, "server/discover"),
            None => false,
        },
        None => false,
    };
    let meta: Option<&JsonValue> = match request.get("params") {
        Some(params) => match params.get("_meta") {
            Some(m) => if m.is_object() {
                Some(m)
            } else {
                None
            },
            None => None,
        },
        None => None,
    };
    let modern_claim = match meta {
        Some(m) => m.get("io.modelcontextprotocol/protocolVersion").is_some() || m.get(
            "io.modelcontextprotocol/clientInfo",
        ).is_some() || m.get("io.modelcontextprotocol/clientCapabilities").is_some(),
        None => false,
    };
    proof {
        reveal_strlit("server/discover");
    }
    if !method_is_discover && !modern_claim {
        return ProtocolSelection::Legacy;
    }
    let m = match meta {
        None => {
            return ProtocolSelection::Invalid(
                "2026-07-28 requests require params._meta with protocolVersion and clientCapabilities".to_owned(),
            );
        },
        Some(m) => m,
    };
    let version = match m.get("io.modelcontextprotocol/protocolVersion") {
        Some(v) => match v.as_str() {
            Some(s) => s,
            None => {
                return ProtocolSelection::Invalid(
                    concat("2026-07-28 requests require params._meta.", "io.modelcontextprotocol/protocolVersion"),
                );
            },
        },
        None => {
            return ProtocolSelection::Invalid(
                concat("2026-07-28 requests require params._meta.", "io.modelcontextprotocol/protocolVersion"),
            );
        },
    };
    if !crate::text::str_eq(version, "2026-07-28") {
        return ProtocolSelection::Unsupported(version.to_owned());
    }
    let capabilities_ok = match m.get("io.modelcontextprotocol/clientCapabilities") {
        Some(c) => c.is_object(),
        None => false,
    };
    if !capabilities_ok {
        return ProtocolSelection::Invalid(
            concat(
                "2026-07-28 requests require object params._meta.",
                "io.modelcontextprotocol/clientCapabilities",
            ),
        );
    }
    match m.get("io.modelcontextprotocol/clientInfo") {
        Some(info) => {
            let name_ok = match info.get("name") {
                Some(n) => n.as_str().is_some(),
                None => false,
            };
            let version_ok = match info.get("version") {
                Some(n) => n.as_str().is_some(),
                None => false,
            };
            if info.is_object() && name_ok && version_ok {
                ProtocolSelection::Modern
            } else {
                let mut msg = chars_of("params._meta.");
                append_chars(&mut msg, chars_of("io.modelcontextprotocol/clientInfo").as_slice());
                append_chars(&mut msg, chars_of(" must contain string name and version when present").as_slice());
                ProtocolSelection::Invalid(string_from_chars(msg.as_slice()))
            }
        },
        None => ProtocolSelection::Modern,
    }
}

/// The protocol version an `initialize` answer names: the original legacy
/// version when the client asks for it, else the current legacy version.
pub fn legacy_protocol_version(request: &JsonValue) -> (r: &'static str)
    ensures
        r@ == if str_of(
            match json_get(request@, "params"@) {
                Some(p) => json_get(p, "protocolVersion"@),
                None => None,
            },
        ) == Some(original_legacy_version()) {
            original_legacy_version()
        } else {
            legacy_version()
        },
{
    let asked = match request.get("params") {
        Some(p) => match p.get("protocolVersion") {
            Some(v) => match v.as_str() {
                Some(s) => crate::text::str_eq(s, "2024-11-05"),
                None => false,
            },
            None => false,
        },
        None => false,
    };
    if asked {
        "2024-11-05"
    } else {
        "2025-11-25"
    }
}

/// The protocol versions the server speaks, newest first.
pub fn supported_protocol_versions() -> (r: Vec<&'static str>)
    ensures
        r@.len() == 3,
        r@[0]@ == modern_version(),
        r@[1]@ == legacy_version(),
        r@[2]@ == original_legacy_version(),
{
    vec!["2026-07-28", "2025-11-25", "2024-11-05"]
}

// ---------------------------------------------------------------------------
// Envelopes
// ---------------------------------------------------------------------------
/// The released version of the server.
pub open spec fn server_version() -> Seq<char> {
    "0.1.6"@
}

/// A JSON number of a signed 32-bit value.
pub open spec fn int_view(n: i32) -> JsonView {
    if n < 0 {
        JsonView::Number(NumberView::NegInt(n as i64))
    } else {
        JsonView::Number(NumberView::PosInt(n as u64))
    }
}

fn int_value(n: i32) -> (r: JsonValue)
    ensures
        r@ == int_view(n),
{
    if n < 0 {
        JsonValue::Number(JsonNumber::NegInt(n as i64))
    } else {
        JsonValue::Number(JsonNumber::PosInt(n as u64))
    }
}

/// `{"name": "codefacts", "version": ...}`.
pub open spec fn server_info_view() -> JsonView {
    object_of(seq![("name"@, JsonView::String("codefacts"@)), ("version"@, JsonView::String(server_version()))])
}

/// The server's name and version.
pub fn server_info() -> (r: JsonValue)
    ensures
        r@ == server_info_view(),
{
    object2("name", JsonValue::string("codefacts"), "version", JsonValue::string("0.1.6"))
}

/// The views of the supported versions, as a JSON array.
pub open spec fn supported_versions_view() -> JsonView {
    JsonView::Array(
        seq![
            JsonView::String(modern_version()),
            JsonView::String(legacy_version()),
            JsonView::String(original_legacy_version()),
        ],
    )
}

fn supported_versions_value() -> (r: JsonValue)
    ensures
        r@ == supported_versions_view(),
{
    let items = vec![
        JsonValue::string("2026-07-28"),
        JsonValue::string("2025-11-25"),
        JsonValue::string("2024-11-05"),
    ];
    proof {
        crate::json::lemma_items_view(items@, 3);
    }
    let r = array_of(items);
    assert(crate::json::items_view(items@, 3) =~= seq![
        JsonView::String(modern_version()),
        JsonView::String(legacy_version()),
        JsonView::String(original_legacy_version()),
    ]);
    r
}

/// The answer to `server/discover`: supported versions and capabilities.
pub fn discovery_result() -> (r: JsonValue)
    ensures
        r@ == object_of(
            seq![
                ("capabilities"@, object_of(seq![("tools"@, object_of(Seq::empty()))])),
                ("supportedVersions"@, supported_versions_view()),
            ],
        ),
{
    let tools = JsonValue::object();
    let capabilities = object1("tools", tools);
    object2("capabilities", capabilities, "supportedVersions", supported_versions_value())
}

/// Marks a modern result complete and names the server in its `_meta`,
/// keeping any other metadata.
pub open spec fn complete_result_spec(result: Seq<(Seq<char>, JsonView)>) -> JsonView {
    let r1 = member_insert(result, "resultType"@, JsonView::String("complete"@));
    let meta = match crate::json::member_get(r1, "_meta"@) {
        Some(JsonView::Object(m)) => JsonView::Object(member_insert(m, server_info_key(), server_info_view())),
        _ => object_of(seq![(server_info_key(), server_info_view())]),
    };
    JsonView::Object(member_insert(r1, "_meta"@, meta))
}

/// Completes a modern-era result (see [`complete_result_spec`]).
pub fn complete_result(result: JsonValue) -> (r: JsonValue)
    requires
        result@ is Object,
    ensures
        r@ == complete_result_spec(result@->Object_0),
{
    let mut result = result;
    result.insert("resultType".to_owned(), JsonValue::string("complete"));
    let meta = match result.get("_meta") {
        Some(m) => if m.is_object() {
            let mut m2 = m.copy();
            m2.insert("io.modelcontextprotocol/serverInfo".to_owned(), server_info());
            m2
        } else {
            object1("io.modelcontextprotocol/serverInfo", server_info())
        },
        None => object1("io.modelcontextprotocol/serverInfo", server_info()),
    };
    result.insert("_meta".to_owned(), meta);
    result
}

/// A JSON-RPC error response.
pub open spec fn rpc_error_view(id: JsonView, code: i32, message: Seq<char>) -> JsonView {
    object_of(
        seq![
            ("error"@, object_of(seq![("code"@, int_view(code)), ("message"@, JsonView::String(message))])),
            ("id"@, id),
            ("jsonrpc"@, JsonView::String("2.0"@)),
        ],
    )
}

/// A JSON-RPC error response.
pub fn json_rpc_error(id: JsonValue, code: i32, message: &str) -> (r: JsonValue)
    ensures
        r@ == rpc_error_view(id@, code, message@),
{
    let error = object2("code", int_value(code), "message", JsonValue::string(message));
    object3("error", error, "id", id, "jsonrpc", JsonValue::string("2.0"))
}

/// The JSON-RPC error for a protocol version the server does not speak.
pub open spec fn unsupported_view(id: JsonView, requested: Seq<char>) -> JsonView {
    object_of(
        seq![
            (
                "error"@,
                object_of(
                    seq![
                        ("code"@, JsonView::Number(NumberView::NegInt(-32022i64))),
                        (
                            "data"@,
                            object_of(
                                seq![
                                    ("requested"@, JsonView::String(requested)),
                                    ("supported"@, supported_versions_view()),
                                ],
                            ),
                        ),
                        ("message"@, JsonView::String("Unsupported protocol version"@)),
                    ],
                ),
            ),
            ("id"@, id),
            ("jsonrpc"@, JsonView::String("2.0"@)),
        ],
    )
}

/// The JSON-RPC error for a protocol version the server does not speak.
pub fn unsupported_protocol_version_error(id: JsonValue, requested: &str) -> (r: JsonValue)
    ensures
        r@ == unsupported_view(id@, requested@),
{
    let data = object2("requested", JsonValue::string(requested), "supported", supported_versions_value());
    let error = object3(
        "code",
        JsonValue::Number(JsonNumber::NegInt(-32022)),
        "data",
        data,
        "message",
        JsonValue::string("Unsupported protocol version"),
    );
    object3("error", error, "id", id, "jsonrpc", JsonValue::string("2.0"))
}

/// A successful tool result: the compact JSON text for clients that read
/// text content, and the value itself as structured content.
pub fn tool_result(value: JsonValue) -> (r: JsonValue)
    ensures
        r@ == object_of(
            seq![
                (
                    "content"@,
                    JsonView::Array(
                        seq![
                            object_of(
                                seq![
                                    ("text"@, JsonView::String(json_text(value@))),
                                    ("type"@, JsonView::String("text"@)),
                                ],
                            ),
                        ],
                    ),
                ),
                ("isError"@, JsonView::Bool(false)),
                ("structuredContent"@, value@),
            ],
        ),
{
    let text = value.to_json_string();
    let item = object2("text", JsonValue::String(text), "type", JsonValue::string("text"));
    let ghost iv = item@;
    let items = vec![item];
    proof {
        crate::json::lemma_items_view(items@, 1);
        assert(crate::json::items_view(items@, 1) =~= seq![iv]);
    }
    object3("content", array_of(items), "isError", JsonValue::Bool(false), "structuredContent", value)
}

/// A failed tool call, reported as tool content rather than a protocol
/// error.
pub fn tool_error(message: &str) -> (r: JsonValue)
    ensures
        r@ == object_of(
            seq![
                (
                    "content"@,
                    JsonView::Array(
                        seq![
                            object_of(
                                seq![("text"@, JsonView::String(message@)), ("type"@, JsonView::String("text"@))],
                            ),
                        ],
                    ),
                ),
                ("isError"@, JsonView::Bool(true)),
            ],
        ),
{
    let item = object2("text", JsonValue::string(message), "type", JsonValue::string("text"));
    let ghost iv = item@;
    let items = vec![item];
    proof {
        crate::json::lemma_items_view(items@, 1);
        assert(crate::json::items_view(items@, 1) =~= seq![iv]);
    }
    object2("content", array_of(items), "isError", JsonValue::Bool(true))
}

// ---------------------------------------------------------------------------
// Tool calls
// ---------------------------------------------------------------------------
/// The five tools.
pub open spec fn is_tool_name(n: Seq<char>) -> bool {
    n == "map"@ || n == "search"@ || n == "outline"@ || n == "expand"@ || n == "path"@
}

/// A `tools/call` request: the tool, its arguments, and the arguments that
/// every tool shares.
#[derive(Debug)]
pub struct ToolCall {
    pub name: String,
    pub arguments: JsonValue,
    pub limit: Option<usize>,
    pub repository_root: Option<String>,
}

/// The arguments object of a call: `params.arguments` when it is an
/// object, else an empty object.
pub open spec fn call_arguments(params: JsonView) -> JsonView {
    match json_get(params, "arguments"@) {
        Some(JsonView::Object(m)) => JsonView::Object(m),
        _ => JsonView::Object(Seq::empty()),
    }
}

/// A `tools/call` request is accepted when its params are an object naming
/// one of the five tools, with a valid `limit` and `repository_root`.
pub open spec fn tool_call_spec(params: Option<JsonView>) -> Result<
    (Seq<char>, JsonView, Option<usize>, Option<Seq<char>>),
    ErrorView,
> {
    match params {
        Some(p) => if !(p is Object) {
            Err(ErrorView::Mcp("tools/call requires object params"@))
        } else {
            match required_string_spec(p, "name"@) {
                Err(e) => Err(e),
                Ok(name) => {
                    let args = call_arguments(p);
                    match optional_limit_spec(args) {
                        Err(e) => Err(e),
                        Ok(limit) => match optional_string_spec(args, "repository_root"@) {
                            Err(e) => Err(e),
                            Ok(root) => if !is_tool_name(name) {
                                Err(
                                    ErrorView::Mcp(
                                        "unknown tool '"@ + name
                                            + "'; CodeFacts exposes only map, search, outline, expand, and path"@,
                                    ),
                                )
                            } else {
                                Ok((name, args, limit, root))
                            },
                        },
                    }
                },
            }
        },
        None => Err(ErrorView::Mcp("tools/call requires object params"@)),
    }
}

/// Reads the tool, its arguments and the shared arguments of a
/// `tools/call` request (see [`tool_call_spec`]).
pub fn parse_tool_call(params: Option<&JsonValue>) -> (r: Result<ToolCall, CodeFactsError>)
    ensures
        match r {
            Ok(c) => tool_call_spec(
                match params {
                    Some(p) => Some(p@),
                    None => None,
                },
            ) == Ok::<(Seq<char>, JsonView, Option<usize>, Option<Seq<char>>), ErrorView>(
                (c.name@, c.arguments@, c.limit, opt_view(c.repository_root)),
            ),
            Err(e) => tool_call_spec(
                match params {
                    Some(p) => Some(p@),
                    None => None,
                },
            ) == Err::<(Seq<char>, JsonView, Option<usize>, Option<Seq<char>>), ErrorView>(error_view(e)),
        },
{
    let p = match params {
        Some(p) => if p.is_object() {
            p
        } else {
            return Err(CodeFactsError::Mcp("tools/call requires object params".to_owned()));
        },
        None => return Err(CodeFactsError::Mcp("tools/call requires object params".to_owned())),
    };
    let name = required_string(p, "name")?;
    let arguments = match p.get("arguments") {
        Some(a) => if a.is_object() {
            a.copy()
        } else {
            JsonValue::object()
        },
        None => JsonValue::object(),
    };
    let limit = optional_limit(&arguments)?;
    let repository_root = optional_string(&arguments, "repository_root")?;
    let n = name.as_str();
    if !(crate::text::str_eq(n, "map") || crate::text::str_eq(n, "search") || crate::text::str_eq(n, "outline")
        || crate::text::str_eq(n, "expand") || crate::text::str_eq(n, "path")) {
        let mut m = chars_of("unknown tool '");
        append_chars(&mut m, chars_of(n).as_slice());
        append_chars(
            &mut m,
            chars_of("'; CodeFacts exposes only map, search, outline, expand, and path").as_slice(),
        );
        return Err(CodeFactsError::Mcp(string_from_chars(m.as_slice())));
    }
    Ok(ToolCall { name, arguments, limit, repository_root })
}

/// What a tool call asks for, its arguments validated.
#[derive(Debug)]
pub enum ToolRequest {
    RepositoryMap,
    Search {
        query: String,
        kind: Option<NodeKind>,
        path_prefix: Option<String>,
        scope: SymbolScope,
        offset: usize,
        cursor: Option<String>,
        detail: Option<String>,
        context_limit: Option<usize>,
    },
    Outline {
        file_path: String,
        kind: Option<NodeKind>,
        scope: SymbolScope,
        offset: usize,
        cursor: Option<String>,
    },
    Expand { symbol: String, file_path: Option<String>, section: ExpandSection, cursor: Option<String> },
    Path { from: String, from_file_path: Option<String>, to: String, to_file_path: Option<String> },
}

pub enum RequestView {
    RepositoryMap,
    Search {
        query: Seq<char>,
        kind: Option<NodeKind>,
        path_prefix: Option<Seq<char>>,
        scope: SymbolScope,
        offset: usize,
        cursor: Option<Seq<char>>,
        detail: Option<Seq<char>>,
        context_limit: Option<usize>,
    },
    Outline {
        file_path: Seq<char>,
        kind: Option<NodeKind>,
        scope: SymbolScope,
        offset: usize,
        cursor: Option<Seq<char>>,
    },
    Expand { symbol: Seq<char>, file_path: Option<Seq<char>>, section: ExpandSection, cursor: Option<Seq<char>> },
    Path { from: Seq<char>, from_file_path: Option<Seq<char>>, to: Seq<char>, to_file_path: Option<Seq<char>> },
}

pub open spec fn request_view(r: ToolRequest) -> RequestView {
    match r {
        ToolRequest::RepositoryMap => RequestView::RepositoryMap,
        ToolRequest::Search { query, kind, path_prefix, scope, offset, cursor, detail, context_limit } =>
        RequestView::Search {
            query: query@,
            kind,
            path_prefix: opt_view(path_prefix),
            scope,
            offset,
            cursor: opt_view(cursor),
            detail: opt_view(detail),
            context_limit,
        },
        ToolRequest::Outline { file_path, kind, scope, offset, cursor } => RequestView::Outline {
            file_path: file_path@,
            kind,
            scope,
            offset,
            cursor: opt_view(cursor),
        },
        ToolRequest::Expand { symbol, file_path, section, cursor } => RequestView::Expand {
            symbol: symbol@,
            file_path: opt_view(file_path),
            section,
            cursor: opt_view(cursor),
        },
        ToolRequest::Path { from, from_file_path, to, to_file_path } => RequestView::Path {
            from: from@,
            from_file_path: opt_view(from_file_path),
            to: to@,
            to_file_path: opt_view(to_file_path),
        },
    }
}

/// The scope argument with its default.
pub open spec fn scope_or_default(s: Option<SymbolScope>) -> SymbolScope {
    match s {
        Some(x) => x,
        None => SymbolScope::TopLevel,
    }
}

/// The offset argument with its default.
pub open spec fn offset_or_default(o: Option<usize>) -> usize {
    match o {
        Some(x) => x,
        None => 0,
    }
}

/// A tool's own arguments, validated in the order the tool reads them; the
/// first invalid argument is the error.
pub open spec fn request_spec(name: Seq<char>, args: JsonView) -> Result<RequestView, ErrorView> {
    if name == "map"@ {
        Ok(RequestView::RepositoryMap)
    } else if name == "search"@ {
        match required_string_spec(args, "query"@) {
            Err(e) => Err(e),
            Ok(query) => match optional_node_kind_spec(args) {
                Err(e) => Err(e),
                Ok(kind) => match optional_string_spec(args, "path_prefix"@) {
                    Err(e) => Err(e),
                    Ok(path_prefix) => match optional_symbol_scope_spec(args) {
                        Err(e) => Err(e),
                        Ok(scope) => match optional_offset_spec(args) {
                            Err(e) => Err(e),
                            Ok(offset) => match optional_string_spec(args, "cursor"@) {
                                Err(e) => Err(e),
                                Ok(cursor) => match optional_string_spec(args, "detail"@) {
                                    Err(e) => Err(e),
                                    Ok(detail) => match optional_count_spec(args, "context_limit"@) {
                                        Err(e) => Err(e),
                                        Ok(context_limit) => Ok(
                                            RequestView::Search {
                                                query,
                                                kind,
                                                path_prefix,
                                                scope: scope_or_default(scope),
                                                offset: offset_or_default(offset),
                                                cursor,
                                                detail,
                                                context_limit,
                                            },
                                        ),
                                    },
                                },
                            },
                        },
                    },
                },
            },
        }
    } else if name == "outline"@ {
        match required_string_spec(args, "file_path"@) {
            Err(e) => Err(e),
            Ok(file_path) => match optional_node_kind_spec(args) {
                Err(e) => Err(e),
                Ok(kind) => match optional_symbol_scope_spec(args) {
                    Err(e) => Err(e),
                    Ok(scope) => match optional_offset_spec(args) {
                        Err(e) => Err(e),
                        Ok(offset) => match optional_string_spec(args, "cursor"@) {
                            Err(e) => Err(e),
                            Ok(cursor) => Ok(
                                RequestView::Outline {
                                    file_path,
                                    kind,
                                    scope: scope_or_default(scope),
                                    offset: offset_or_default(offset),
                                    cursor,
                                },
                            ),
                        },
                    },
                },
            },
        }
    } else if name == "expand"@ {
        match required_string_spec(args, "symbol"@) {
            Err(e) => Err(e),
            Ok(symbol) => match optional_string_spec(args, "file_path"@) {
                Err(e) => Err(e),
                Ok(file_path) => match expand_section_arg_spec(args) {
                    Err(e) => Err(e),
                    Ok(section) => match optional_string_spec(args, "cursor"@) {
                        Err(e) => Err(e),
                        Ok(cursor) => Ok(RequestView::Expand { symbol, file_path, section, cursor }),
                    },
                },
            },
        }
    } else {
        match required_string_spec(args, "from"@) {
            Err(e) => Err(e),
            Ok(from) => match optional_string_spec(args, "from_file_path"@) {
                Err(e) => Err(e),
                Ok(from_file_path) => match required_string_spec(args, "to"@) {
                    Err(e) => Err(e),
                    Ok(to) => match optional_string_spec(args, "to_file_path"@) {
                        Err(e) => Err(e),
                        Ok(to_file_path) => Ok(RequestView::Path { from, from_file_path, to, to_file_path }),
                    },
                },
            },
        }
    }
}

/// A tool call's validated arguments: the answer's format, then the tool's
/// own arguments (see [`request_spec`]).
pub open spec fn tool_request_spec(name: Seq<char>, args: JsonView) -> Result<(ResponseFormat, RequestView), ErrorView> {
    match response_format_spec(args) {
        Err(e) => Err(e),
        Ok(format) => match request_spec(name, args) {
            Err(e) => Err(e),
            Ok(request) => Ok((format, request)),
        },
    }
}

/// What a tool call asks for, and how its answer is presented.
#[derive(Debug)]
pub struct ToolArguments {
    pub format: ResponseFormat,
    pub request: ToolRequest,
}

/// Validates the arguments of the tool a call names (see
/// [`tool_request_spec`]); the project is selected before this step.
pub fn tool_request(call: &ToolCall) -> (r: Result<ToolArguments, CodeFactsError>)
    requires
        is_tool_name(call.name@),
    ensures
        match r {
            Ok(q) => tool_request_spec(call.name@, call.arguments@) == Ok::<(ResponseFormat, RequestView), ErrorView>(
                (q.format, request_view(q.request)),
            ),
            Err(e) => tool_request_spec(call.name@, call.arguments@) == Err::<(ResponseFormat, RequestView), ErrorView>(
                error_view(e),
            ),
        },
{
    let format = response_format(&call.arguments)?;
    let request = request_for(call)?;
    Ok(ToolArguments { format, request })
}

/// The tool's own arguments (see [`request_spec`]).
fn request_for(call: &ToolCall) -> (r: Result<ToolRequest, CodeFactsError>)
    requires
        is_tool_name(call.name@),
    ensures
        match r {
            Ok(q) => request_spec(call.name@, call.arguments@) == Ok::<RequestView, ErrorView>(request_view(q)),
            Err(e) => request_spec(call.name@, call.arguments@) == Err::<RequestView, ErrorView>(error_view(e)),
        },
{
    let args = &call.arguments;
    let n = call.name.as_str();
    if crate::text::str_eq(n, "map") {
        Ok(ToolRequest::RepositoryMap)
    } else if crate::text::str_eq(n, "search") {
        let query = required_string(args, "query")?;
        let kind = optional_node_kind(args)?;
        let path_prefix = optional_string(args, "path_prefix")?;
        let scope = optional_symbol_scope(args)?;
        let offset = optional_offset(args)?;
        let cursor = optional_string(args, "cursor")?;
        let detail = optional_string(args, "detail")?;
        let context_limit = optional_count(args, "context_limit")?;
        Ok(
            ToolRequest::Search {
                query,
                kind,
                path_prefix,
                scope: match scope {
                    Some(s) => s,
                    None => SymbolScope::TopLevel,
                },
                offset: match offset {
                    Some(o) => o,
                    None => 0,
                },
                cursor,
                detail,
                context_limit,
            },
        )
    } else if crate::text::str_eq(n, "outline") {
        let file_path = required_string(args, "file_path")?;
        let kind = optional_node_kind(args)?;
        let scope = optional_symbol_scope(args)?;
        let offset = optional_offset(args)?;
        let cursor = optional_string(args, "cursor")?;
        Ok(
            ToolRequest::Outline {
                file_path,
                kind,
                scope: match scope {
                    Some(s) => s,
                    None => SymbolScope::TopLevel,
                },
                offset: match offset {
                    Some(o) => o,
                    None => 0,
                },
                cursor,
            },
        )
    } else if crate::text::str_eq(n, "expand") {
        let symbol = required_string(args, "symbol")?;
        let file_path = optional_string(args, "file_path")?;
        let section = expand_section_arg(args)?;
        let cursor = optional_string(args, "cursor")?;
        Ok(ToolRequest::Expand { symbol, file_path, section, cursor })
    } else {
        let from = required_string(args, "from")?;
        let from_file_path = optional_string(args, "from_file_path")?;
        let to = required_string(args, "to")?;
        let to_file_path = optional_string(args, "to_file_path")?;
        Ok(ToolRequest::Path { from, from_file_path, to, to_file_path })
    }
}

// ---------------------------------------------------------------------------
// Requests
// ---------------------------------------------------------------------------
/// The answer to `initialize`.
pub open spec fn initialize_view(version: Seq<char>) -> JsonView {
    object_of(
        seq![
            ("capabilities"@, object_of(seq![("tools"@, object_of(Seq::empty()))])),
            ("protocolVersion"@, JsonView::String(version)),
            ("serverInfo"@, server_info_view()),
        ],
    )
}

/// The response to a request with id `id`: a modern result marked complete,
/// wrapped in a JSON-RPC envelope; nothing for a notification.
pub open spec fn wrap_spec(modern: bool, id: Option<JsonView>, response: JsonView) -> Option<JsonView> {
    let result = if modern {
        complete_result_spec(response->Object_0)
    } else {
        response
    };
    match id {
        Some(i) => Some(
            object_of(seq![("id"@, i), ("jsonrpc"@, JsonView::String("2.0"@)), ("result"@, result)]),
        ),
        None => None,
    }
}

/// What handling a request takes.
#[derive(Debug)]
pub enum RequestStep {
    /// The response is settled (none for notifications and requests
    /// without an id).
    Done(Option<JsonValue>),
    /// Answer with the tool definitions.
    ListTools,
    /// Run the tool call with these params, then answer with its outcome.
    CallTool(Option<JsonValue>),
}

pub enum StepView {
    Done(Option<JsonView>),
    ListTools,
    CallTool(Option<JsonView>),
}

pub open spec fn opt_json_view(o: Option<JsonValue>) -> Option<JsonView> {
    match o {
        Some(v) => Some(v@),
        None => None,
    }
}

pub open spec fn step_view(s: RequestStep) -> StepView {
    match s {
        RequestStep::Done(r) => StepView::Done(opt_json_view(r)),
        RequestStep::ListTools => StepView::ListTools,
        RequestStep::CallTool(p) => StepView::CallTool(opt_json_view(p)),
    }
}

/// An error answer when the request has an id.
pub open spec fn error_reply(id: Option<JsonView>, code: i32, message: Seq<char>) -> Option<JsonView> {
    match id {
        Some(i) => Some(rpc_error_view(i, code, message)),
        None => None,
    }
}

/// How a request is handled: protocol problems and unknown methods are
/// answered with JSON-RPC errors; discovery and initialization are answered
/// at once in their era; tool listing and tool calls need the tools.
pub open spec fn route_spec(request: JsonView) -> StepView {
    let id = json_get(request, "id"@);
    let method = str_of(json_get(request, "method"@));
    let legacy_initialize = initialize_view(
        if str_of(
            match json_get(request, "params"@) {
                Some(p) => json_get(p, "protocolVersion"@),
                None => None,
            },
        ) == Some(original_legacy_version()) {
            original_legacy_version()
        } else {
            legacy_version()
        },
    );
    match select_protocol_spec(request) {
        SelectionView::Invalid(m) => StepView::Done(error_reply(id, -32602i32, m)),
        SelectionView::Unsupported(v) => StepView::Done(
            match id {
                Some(i) => Some(unsupported_view(i, v)),
                None => None,
            },
        ),
        SelectionView::Modern => if method == Some("server/discover"@) {
            StepView::Done(wrap_spec(true, id, discovery_view()))
        } else if method == Some("tools/list"@) {
            StepView::ListTools
        } else if method == Some("tools/call"@) {
            StepView::CallTool(json_get(request, "params"@))
        } else if method == Some("notifications/initialized"@) {
            StepView::Done(None)
        } else if method is Some {
            StepView::Done(error_reply(id, -32601i32, "method not found"@))
        } else {
            StepView::Done(error_reply(id, -32600i32, "request has no method"@))
        },
        SelectionView::Legacy => if method == Some("initialize"@) {
            StepView::Done(wrap_spec(false, id, legacy_initialize))
        } else if method == Some("tools/list"@) {
            StepView::ListTools
        } else if method == Some("tools/call"@) {
            StepView::CallTool(json_get(request, "params"@))
        } else if method == Some("notifications/initialized"@) {
            StepView::Done(None)
        } else if method is Some {
            StepView::Done(error_reply(id, -32601i32, "method not found"@))
        } else {
            StepView::Done(error_reply(id, -32600i32, "request has no method"@))
        },
    }
}

/// The answer to `server/discover`.
pub open spec fn discovery_view() -> JsonView {
    object_of(
        seq![
            ("capabilities"@, object_of(seq![("tools"@, object_of(Seq::empty()))])),
            ("supportedVersions"@, supported_versions_view()),
        ],
    )
}

/// The JSON-RPC envelope of a result (see [`wrap_spec`]).
fn wrap_response(modern: bool, id: Option<JsonValue>, response: JsonValue) -> (r: Option<JsonValue>)
    requires
        response@ is Object,
    ensures
        opt_json_view(r) == wrap_spec(modern, opt_json_view(id), response@),
{
    let result = if modern {
        complete_result(response)
    } else {
        response
    };
    match id {
        Some(i) => Some(object3("id", i, "jsonrpc", JsonValue::string("2.0"), "result", result)),
        None => None,
    }
}

/// The `id` of a request, copied.
fn request_id(request: &JsonValue) -> (r: Option<JsonValue>)
    ensures
        opt_json_view(r) == json_get(request@, "id"@),
{
    match request.get("id") {
        Some(i) => Some(i.copy()),
        None => None,
    }
}

/// Decides how to handle one request (see [`route_spec`]).
pub fn route_request(request: &JsonValue) -> (r: RequestStep)
    ensures
        step_view(r) == route_spec(request@),
{
    let method: Option<&str> = match request.get("method") {
        Some(m) => m.as_str(),
        None => None,
    };
    proof {
        reveal_strlit("server/discover");
        reveal_strlit("initialize");
        reveal_strlit("tools/list");
        reveal_strlit("tools/call");
        reveal_strlit("notifications/initialized");
    }
    let is = |name: &str| -> (b: bool)
        ensures
            b == (match method {
                Some(m) => m@ == name@,
                None => false,
            }),
        {
            match method {
                Some(m) => crate::text::str_eq(m, name),
                None => false,
            }
        };
    let modern = match select_protocol(request) {
        ProtocolSelection::Invalid(message) => {
            return RequestStep::Done(
                match request_id(request) {
                    Some(i) => Some(json_rpc_error(i, -32602, message.as_str())),
                    None => None,
                },
            );
        },
        ProtocolSelection::Unsupported(version) => {
            return RequestStep::Done(
                match request_id(request) {
                    Some(i) => Some(unsupported_protocol_version_error(i, version.as_str())),
                    None => None,
                },
            );
        },
        ProtocolSelection::Modern => true,
        ProtocolSelection::Legacy => false,
    };
    if modern && is("server/discover") {
        return RequestStep::Done(wrap_response(true, request_id(request), discovery_result()));
    }
    if !modern && is("initialize") {
        let tools = JsonValue::object();
        let capabilities = object1("tools", tools);
        let version = legacy_protocol_version(request);
        let result = object3(
            "capabilities",
            capabilities,
            "protocolVersion",
            JsonValue::string(version),
            "serverInfo",
            server_info(),
        );
        return RequestStep::Done(wrap_response(false, request_id(request), result));
    }
    if is("tools/list") {
        return RequestStep::ListTools;
    }
    if is("tools/call") {
        return RequestStep::CallTool(
            match request.get("params") {
                Some(p) => Some(p.copy()),
                None => None,
            },
        );
    }
    if is("notifications/initialized") {
        return RequestStep::Done(None);
    }
    let id = request_id(request);
    match method {
        Some(_) => RequestStep::Done(
            match id {
                Some(i) => Some(json_rpc_error(i, -32601, "method not found")),
                None => None,
            },
        ),
        None => RequestStep::Done(
            match id {
                Some(i) => Some(json_rpc_error(i, -32600, "request has no method")),
                None => None,
            },
        ),
    }
}

/// Whether a request is in the modern protocol era.
pub open spec fn is_modern(request: JsonView) -> bool {
    select_protocol_spec(request) is Modern
}

/// Wraps the result of a tool listing or call into the response to
/// `request`.
pub fn finish_response(request: &JsonValue, response: JsonValue) -> (r: Option<JsonValue>)
    requires
        response@ is Object,
    ensures
        opt_json_view(r) == wrap_spec(is_modern(request@), json_get(request@, "id"@), response@),
{
    let modern = match select_protocol(request) {
        ProtocolSelection::Modern => true,
        _ => false,
    };
    wrap_response(modern, request_id(request), response)
}

/// The answer to `tools/list`: the tool definitions, which a modern-era
/// client may not cache (`ttlMs` 0) and may keep only privately.
pub open spec fn tools_list_view(modern: bool, definitions: JsonView) -> JsonView {
    if modern {
        object_of(
            seq![
                ("cacheScope"@, JsonView::String("private"@)),
                ("tools"@, definitions),
                ("ttlMs"@, JsonView::Number(NumberView::PosInt(0))),
            ],
        )
    } else {
        object_of(seq![("tools"@, definitions)])
    }
}

/// The answer to `tools/list` for `request` (see [`tools_list_view`]).
pub fn tools_list_result(request: &JsonValue, definitions: JsonValue) -> (r: JsonValue)
    ensures
        r@ == tools_list_view(is_modern(request@), definitions@),
{
    let modern = match select_protocol(request) {
        ProtocolSelection::Modern => true,
        _ => false,
    };
    if modern {
        object3(
            "cacheScope",
            JsonValue::string("private"),
            "tools",
            definitions,
            "ttlMs",
            JsonValue::Number(JsonNumber::PosInt(0)),
        )
    } else {
        object1("tools", definitions)
    }
}

} // verus!
