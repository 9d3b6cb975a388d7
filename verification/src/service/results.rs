//! The JSON of facts and of the outcomes that the workflows report.
use vstd::prelude::*;

use vstd::utf8::encode_utf8;

use crate::digest::{hex_lower, sha256};
use crate::json::{
    items_view, key_slot, lemma_items_view, lemma_member_position_bounds, lemma_members_view, member_get, member_insert, member_position, members_view, object10, object2, object3, object4, object5, object6, object7, object8, object9,
    object_of, JsonNumber, JsonValue, JsonView, NumberView,
};
use crate::service::cursor::{cursor_json, encode_page_cursor, page_scope, scope_bytes, strs_view};
use crate::service::pages::sat_add;
use crate::types::{language_name, node_kind_name, CodeNode, NodeKind};
use crate::lsp::{server_report_view, LspReport, LspServerReport, SemanticReferenceResult, ServerReportView};
use crate::service::pages::SemanticFacts;
use crate::service::{
    symbol_scope_name, SymbolScope, PAGE_CURSOR_VERSION, Evidence, Freshness, RelationshipFact, SemanticLocationFact, SymbolFact, UnresolvedReferenceFact,
    UNRESOLVED_REFERENCE_SAMPLE_LIMIT,
};

verus! {

// ---------------------------------------------------------------------------
// Facts
// ---------------------------------------------------------------------------
pub open spec fn text(s: Seq<char>) -> JsonView {
    JsonView::String(s)
}

pub open spec fn count(n: nat) -> JsonView {
    JsonView::Number(NumberView::PosInt(n as u64))
}

/// An optional text: the text, or null.
pub open spec fn opt_text(o: Option<String>) -> JsonView {
    match o {
        Some(s) => JsonView::String(s@),
        None => JsonView::Null,
    }
}

pub open spec fn evidence_json(e: Evidence) -> JsonView {
    object_of(
        seq![
            ("confidence"@, text(e.confidence@)),
            ("end_line"@, count(e.end_line as nat)),
            ("extractor"@, text(e.extractor@)),
            ("file_path"@, text(e.file_path@)),
            ("source_hash"@, opt_text(e.source_hash)),
            ("start_line"@, count(e.start_line as nat)),
        ],
    )
}

pub open spec fn symbol_fact_json(f: SymbolFact) -> JsonView {
    object_of(
        seq![
            ("evidence"@, evidence_json(f.evidence)),
            ("id"@, text(f.id@)),
            ("kind"@, text(f.kind@)),
            ("language"@, text(f.language@)),
            ("name"@, text(f.name@)),
            ("qualified_name"@, opt_text(f.qualified_name)),
        ],
    )
}

/// A relationship; its resolution is written only when it has one.
pub open spec fn relationship_fact_json(r: RelationshipFact) -> JsonView {
    match r.resolution {
        Some(s) => object_of(
            seq![
                ("evidence"@, evidence_json(r.evidence)),
                ("from"@, symbol_fact_json(r.from)),
                ("kind"@, text(r.kind@)),
                ("resolution"@, text(s@)),
                ("to"@, symbol_fact_json(r.to)),
            ],
        ),
        None => object_of(
            seq![
                ("evidence"@, evidence_json(r.evidence)),
                ("from"@, symbol_fact_json(r.from)),
                ("kind"@, text(r.kind@)),
                ("to"@, symbol_fact_json(r.to)),
            ],
        ),
    }
}

pub open spec fn semantic_location_json(f: SemanticLocationFact) -> JsonView {
    object_of(
        seq![
            ("end_column"@, count(f.end_column as nat)),
            ("evidence"@, evidence_json(f.evidence)),
            ("start_column"@, count(f.start_column as nat)),
        ],
    )
}

pub open spec fn unresolved_fact_json(f: UnresolvedReferenceFact) -> JsonView {
    object_of(
        seq![("evidence"@, evidence_json(f.evidence)), ("kind"@, text(f.kind@)), ("specifier"@, text(f.specifier@))],
    )
}

/// A generation as JSON writes an `i64`.
pub open spec fn signed(n: i64) -> JsonView {
    if n < 0 {
        JsonView::Number(NumberView::NegInt(n))
    } else {
        JsonView::Number(NumberView::PosInt(n as u64))
    }
}

pub open spec fn freshness_json(f: Freshness) -> JsonView {
    object_of(
        seq![
            ("duration_ms"@, JsonView::Number(NumberView::PosInt(f.duration_ms as u64))),
            ("files_indexed"@, count(f.files_indexed as nat)),
            ("files_skipped"@, count(f.files_skipped as nat)),
            ("generation"@, signed(f.generation)),
            ("relationships_rebound"@, count(f.relationships_rebound as nat)),
            ("repository_root"@, text(f.repository_root@)),
            ("status"@, text(f.status@)),
        ],
    )
}

fn opt_text_value(o: &Option<String>) -> (r: JsonValue)
    ensures
        r@ == opt_text(*o),
{
    match o {
        Some(s) => JsonValue::String(s.clone()),
        None => JsonValue::Null,
    }
}

fn count_value(n: u64) -> (r: JsonValue)
    ensures
        r@ == count(n as nat),
{
    JsonValue::Number(JsonNumber::PosInt(n))
}

impl Evidence {
    pub fn to_json(&self) -> (r: JsonValue)
        ensures
            r@ == evidence_json(*self),
    {
        object6(
            "confidence",
            JsonValue::String(self.confidence.clone()),
            "end_line",
            count_value(self.end_line as u64),
            "extractor",
            JsonValue::String(self.extractor.clone()),
            "file_path",
            JsonValue::String(self.file_path.clone()),
            "source_hash",
            opt_text_value(&self.source_hash),
            "start_line",
            count_value(self.start_line as u64),
        )
    }
}

impl SymbolFact {
    pub fn to_json(&self) -> (r: JsonValue)
        ensures
            r@ == symbol_fact_json(*self),
    {
        object6(
            "evidence",
            self.evidence.to_json(),
            "id",
            JsonValue::String(self.id.clone()),
            "kind",
            JsonValue::String(self.kind.clone()),
            "language",
            JsonValue::String(self.language.clone()),
            "name",
            JsonValue::String(self.name.clone()),
            "qualified_name",
            opt_text_value(&self.qualified_name),
        )
    }
}

impl RelationshipFact {
    pub fn to_json(&self) -> (r: JsonValue)
        ensures
            r@ == relationship_fact_json(*self),
    {
        match &self.resolution {
            Some(resolution) => object5(
                "evidence",
                self.evidence.to_json(),
                "from",
                self.from.to_json(),
                "kind",
                JsonValue::String(self.kind.clone()),
                "resolution",
                JsonValue::String(resolution.clone()),
                "to",
                self.to.to_json(),
            ),
            None => object4(
                "evidence",
                self.evidence.to_json(),
                "from",
                self.from.to_json(),
                "kind",
                JsonValue::String(self.kind.clone()),
                "to",
                self.to.to_json(),
            ),
        }
    }
}

impl SemanticLocationFact {
    pub fn to_json(&self) -> (r: JsonValue)
        ensures
            r@ == semantic_location_json(*self),
    {
        object3(
            "end_column",
            count_value(self.end_column as u64),
            "evidence",
            self.evidence.to_json(),
            "start_column",
            count_value(self.start_column as u64),
        )
    }
}

impl UnresolvedReferenceFact {
    pub fn to_json(&self) -> (r: JsonValue)
        ensures
            r@ == unresolved_fact_json(*self),
    {
        object3(
            "evidence",
            self.evidence.to_json(),
            "kind",
            JsonValue::String(self.kind.clone()),
            "specifier",
            JsonValue::String(self.specifier.clone()),
        )
    }
}

impl Freshness {
    /// The JSON of a freshness record; its duration must fit a `u64`, as
    /// JSON numbers do.
    pub fn to_json(&self) -> (r: JsonValue)
        requires
            self.duration_ms <= u64::MAX,
        ensures
            r@ == freshness_json(*self),
    {
        let generation = if self.generation < 0 {
            JsonValue::Number(JsonNumber::NegInt(self.generation))
        } else {
            JsonValue::Number(JsonNumber::PosInt(self.generation as u64))
        };
        object7(
            "duration_ms",
            JsonValue::Number(JsonNumber::PosInt(self.duration_ms as u64)),
            "files_indexed",
            count_value(self.files_indexed as u64),
            "files_skipped",
            count_value(self.files_skipped as u64),
            "generation",
            generation,
            "relationships_rebound",
            count_value(self.relationships_rebound as u64),
            "repository_root",
            JsonValue::String(self.repository_root.clone()),
            "status",
            JsonValue::String(self.status.to_owned()),
        )
    }
}

/// The JSON array of a list of symbol facts.
pub open spec fn symbol_facts_json(facts: Seq<SymbolFact>) -> JsonView {
    JsonView::Array(facts.map_values(|f: SymbolFact| symbol_fact_json(f)))
}

pub open spec fn relationship_facts_json(facts: Seq<RelationshipFact>) -> JsonView {
    JsonView::Array(facts.map_values(|f: RelationshipFact| relationship_fact_json(f)))
}

pub open spec fn semantic_locations_json(facts: Seq<SemanticLocationFact>) -> JsonView {
    JsonView::Array(facts.map_values(|f: SemanticLocationFact| semantic_location_json(f)))
}

pub open spec fn unresolved_facts_json(facts: Seq<UnresolvedReferenceFact>) -> JsonView {
    JsonView::Array(facts.map_values(|f: UnresolvedReferenceFact| unresolved_fact_json(f)))
}

fn symbol_facts_value(facts: &Vec<SymbolFact>) -> (r: JsonValue)
    ensures
        r@ == symbol_facts_json(facts@),
{
    let mut out: Vec<JsonValue> = Vec::new();
    let mut i: usize = 0;
    while i < facts.len()
        invariant
            i <= facts@.len(),
            out@.len() == i,
            forall|j: int| 0 <= j < i ==> (#[trigger] out@[j])@ == symbol_fact_json(facts@[j]),
        decreases facts@.len() - i,
    {
        out.push(facts[i].to_json());
        i = i + 1;
    }
    proof {
        lemma_items_view(out@, out@.len() as int);
        assert(items_view(out@, out@.len() as int) =~= facts@.map_values(|f: SymbolFact| symbol_fact_json(f)));
    }
    JsonValue::Array(out)
}

fn relationship_facts_value(facts: &Vec<RelationshipFact>) -> (r: JsonValue)
    ensures
        r@ == relationship_facts_json(facts@),
{
    let mut out: Vec<JsonValue> = Vec::new();
    let mut i: usize = 0;
    while i < facts.len()
        invariant
            i <= facts@.len(),
            out@.len() == i,
            forall|j: int| 0 <= j < i ==> (#[trigger] out@[j])@ == relationship_fact_json(facts@[j]),
        decreases facts@.len() - i,
    {
        out.push(facts[i].to_json());
        i = i + 1;
    }
    proof {
        lemma_items_view(out@, out@.len() as int);
        assert(items_view(out@, out@.len() as int) =~= facts@.map_values(
            |f: RelationshipFact| relationship_fact_json(f),
        ));
    }
    JsonValue::Array(out)
}

// ---------------------------------------------------------------------------
// Outcomes
// ---------------------------------------------------------------------------
/// A path endpoint that names no symbol, or several.
pub open spec fn path_resolution_json(f: Freshness, parameter: Seq<char>, matches: Option<Seq<SymbolFact>>) -> JsonView {
    match matches {
        None => object_of(
            seq![
                ("freshness"@, freshness_json(f)),
                ("message"@, text("No indexed symbol matches this endpoint."@)),
                ("parameter"@, text(parameter)),
                ("status"@, text("not_found"@)),
            ],
        ),
        Some(m) => object_of(
            seq![
                ("freshness"@, freshness_json(f)),
                ("matches"@, symbol_facts_json(m)),
                ("message"@, text("Path endpoints must resolve to one confirmed symbol."@)),
                ("parameter"@, text(parameter)),
                ("status"@, text("ambiguous"@)),
            ],
        ),
    }
}

/// The outcome of a `path` endpoint that did not resolve to one symbol:
/// `not_found` without candidates, else `ambiguous` with them.
pub fn path_resolution_result(freshness: &Freshness, parameter: &str, matches: Option<&Vec<SymbolFact>>) -> (r:
    JsonValue)
    requires
        freshness.duration_ms <= u64::MAX,
    ensures
        r@ == path_resolution_json(
            *freshness,
            parameter@,
            match matches {
                Some(m) => Some(m@),
                None => None,
            },
        ),
{
    match matches {
        None => object4(
            "freshness",
            freshness.to_json(),
            "message",
            JsonValue::string("No indexed symbol matches this endpoint."),
            "parameter",
            JsonValue::string(parameter),
            "status",
            JsonValue::string("not_found"),
        ),
        Some(m) => object5(
            "freshness",
            freshness.to_json(),
            "matches",
            symbol_facts_value(m),
            "message",
            JsonValue::string("Path endpoints must resolve to one confirmed symbol."),
            "parameter",
            JsonValue::string(parameter),
            "status",
            JsonValue::string("ambiguous"),
        ),
    }
}

pub open spec fn path_too_long_message() -> Seq<char> {
    "A shortest static calls path was found, but returning it would exceed the response limit. Increase limit up to 50 or inspect intermediate symbols with expand."@
}

/// A shortest path that was found: the path and its relationships when it
/// fits the response limit, else only its length.
pub open spec fn path_found_json(
    f: Freshness,
    from: SymbolFact,
    to: SymbolFact,
    path: Seq<SymbolFact>,
    relationships: Seq<RelationshipFact>,
    limit: usize,
) -> JsonView {
    if path.len() > limit {
        object_of(
            seq![
                ("freshness"@, freshness_json(f)),
                ("from"@, symbol_fact_json(from)),
                ("maximum_path_length"@, count(limit as nat)),
                ("message"@, text(path_too_long_message())),
                ("path_length"@, count(path.len())),
                ("relationship_kind"@, text("calls"@)),
                ("status"@, text("path_too_long"@)),
                ("to"@, symbol_fact_json(to)),
            ],
        )
    } else {
        object_of(
            seq![
                ("freshness"@, freshness_json(f)),
                ("path"@, symbol_facts_json(path)),
                ("relationship_kind"@, text("calls"@)),
                ("relationships"@, relationship_facts_json(relationships)),
                ("status"@, text("ok"@)),
            ],
        )
    }
}

/// See [`path_found_json`].
pub fn path_found_result(
    freshness: &Freshness,
    from: &SymbolFact,
    to: &SymbolFact,
    path: &Vec<SymbolFact>,
    relationships: &Vec<RelationshipFact>,
    limit: usize,
) -> (r: JsonValue)
    requires
        freshness.duration_ms <= u64::MAX,
    ensures
        r@ == path_found_json(*freshness, *from, *to, path@, relationships@, limit),
{
    if path.len() > limit {
        object8(
            "freshness",
            freshness.to_json(),
            "from",
            from.to_json(),
            "maximum_path_length",
            count_value(limit as u64),
            "message",
            JsonValue::string(
                "A shortest static calls path was found, but returning it would exceed the response limit. Increase limit up to 50 or inspect intermediate symbols with expand.",
            ),
            "path_length",
            count_value(path.len() as u64),
            "relationship_kind",
            JsonValue::string("calls"),
            "status",
            JsonValue::string("path_too_long"),
            "to",
            to.to_json(),
        )
    } else {
        object5(
            "freshness",
            freshness.to_json(),
            "path",
            symbol_facts_value(path),
            "relationship_kind",
            JsonValue::string("calls"),
            "relationships",
            relationship_facts_value(relationships),
            "status",
            JsonValue::string("ok"),
        )
    }
}

/// The path from a symbol to itself: that symbol alone.
pub open spec fn same_symbol_path_json(f: Freshness, symbol: SymbolFact) -> JsonView {
    object_of(
        seq![
            ("freshness"@, freshness_json(f)),
            ("path"@, JsonView::Array(seq![symbol_fact_json(symbol)])),
            ("relationships"@, JsonView::Array(Seq::empty())),
            ("status"@, text("ok"@)),
        ],
    )
}

/// See [`same_symbol_path_json`].
pub fn same_symbol_path_result(freshness: &Freshness, symbol: &SymbolFact) -> (r: JsonValue)
    requires
        freshness.duration_ms <= u64::MAX,
    ensures
        r@ == same_symbol_path_json(*freshness, *symbol),
{
    let ghost s = symbol_fact_json(*symbol);
    let path = vec![symbol.to_json()];
    let none: Vec<JsonValue> = Vec::new();
    proof {
        lemma_items_view(path@, 1);
        lemma_items_view(none@, 0);
        assert(items_view(path@, 1) =~= seq![s]);
        assert(items_view(none@, 0) =~= Seq::<JsonView>::empty());
    }
    object4(
        "freshness",
        freshness.to_json(),
        "path",
        JsonValue::Array(path),
        "relationships",
        JsonValue::Array(none),
        "status",
        JsonValue::string("ok"),
    )
}

pub open spec fn no_static_path_message() -> Seq<char> {
    "No bounded static calls path was found. This does not establish runtime unreachability."@
}

/// No bounded static calls path joins the two symbols.
pub open spec fn no_static_path_json(f: Freshness, from: SymbolFact, to: SymbolFact) -> JsonView {
    object_of(
        seq![
            ("freshness"@, freshness_json(f)),
            ("from"@, symbol_fact_json(from)),
            ("message"@, text(no_static_path_message())),
            ("status"@, text("no_static_path"@)),
            ("to"@, symbol_fact_json(to)),
        ],
    )
}

/// See [`no_static_path_json`].
pub fn no_static_path_result(freshness: &Freshness, from: &SymbolFact, to: &SymbolFact) -> (r: JsonValue)
    requires
        freshness.duration_ms <= u64::MAX,
    ensures
        r@ == no_static_path_json(*freshness, *from, *to),
{
    object5(
        "freshness",
        freshness.to_json(),
        "from",
        from.to_json(),
        "message",
        JsonValue::string("No bounded static calls path was found. This does not establish runtime unreachability."),
        "status",
        JsonValue::string("no_static_path"),
        "to",
        to.to_json(),
    )
}

/// The samples a report keeps: the first `UNRESOLVED_REFERENCE_SAMPLE_LIMIT`.
pub open spec fn kept_samples(n: nat) -> int {
    if n > UNRESOLVED_REFERENCE_SAMPLE_LIMIT {
        UNRESOLVED_REFERENCE_SAMPLE_LIMIT as int
    } else {
        n as int
    }
}

/// The unresolved references of a repository: how many there are, the
/// first few as samples, and whether samples were left out.
pub open spec fn unresolved_report_json(facts: Seq<UnresolvedReferenceFact>) -> JsonView {
    object_of(
        seq![
            ("count"@, count(facts.len())),
            ("samples"@, unresolved_facts_json(facts.take(kept_samples(facts.len())))),
            ("truncated"@, JsonView::Bool(facts.len() > UNRESOLVED_REFERENCE_SAMPLE_LIMIT)),
        ],
    )
}

/// See [`unresolved_report_json`].
pub fn unresolved_reference_report(facts: &Vec<UnresolvedReferenceFact>) -> (r: JsonValue)
    ensures
        r@ == unresolved_report_json(facts@),
{
    let n = if facts.len() > UNRESOLVED_REFERENCE_SAMPLE_LIMIT {
        UNRESOLVED_REFERENCE_SAMPLE_LIMIT
    } else {
        facts.len()
    };
    let ghost kept = facts@.take(n as int);
    let mut out: Vec<JsonValue> = Vec::new();
    let mut i: usize = 0;
    while i < n
        invariant
            i <= n <= facts@.len(),
            kept == facts@.take(n as int),
            out@.len() == i,
            forall|j: int| 0 <= j < i ==> (#[trigger] out@[j])@ == unresolved_fact_json(facts@[j]),
        decreases n - i,
    {
        out.push(facts[i].to_json());
        i = i + 1;
    }
    proof {
        lemma_items_view(out@, out@.len() as int);
        assert(items_view(out@, out@.len() as int) =~= kept.map_values(
            |f: UnresolvedReferenceFact| unresolved_fact_json(f),
        ));
    }
    object3(
        "count",
        count_value(facts.len() as u64),
        "samples",
        JsonValue::Array(out),
        "truncated",
        JsonValue::Bool(facts.len() > UNRESOLVED_REFERENCE_SAMPLE_LIMIT),
    )
}

/// Semantic references that are not available, by reason.
pub open spec fn semantic_status_json(result: SemanticReferenceResult) -> Option<JsonView> {
    match result {
        SemanticReferenceResult::Disabled => Some(
            object_of(
                seq![
                    ("message"@, text("Semantic LSP references are disabled by --lsp off."@)),
                    ("status"@, text("disabled"@)),
                ],
            ),
        ),
        SemanticReferenceResult::Unsupported { language } => Some(
            object_of(
                seq![
                    ("language"@, text(language@)),
                    ("message"@, text("No optional LSP provider is supported for this symbol language."@)),
                    ("status"@, text("unsupported"@)),
                ],
            ),
        ),
        SemanticReferenceResult::Unavailable { provider, message } => Some(
            object_of(seq![("message"@, text(message@)), ("provider"@, text(provider@)), ("status"@, text("unavailable"@))]),
        ),
        SemanticReferenceResult::NotApplicable { provider, message } => Some(
            object_of(
                seq![("message"@, text(message@)), ("provider"@, text(provider@)), ("status"@, text("not_applicable"@))],
            ),
        ),
        SemanticReferenceResult::Failed { provider, message } => Some(
            object_of(seq![("message"@, text(message@)), ("provider"@, text(provider@)), ("status"@, text("failed"@))]),
        ),
        SemanticReferenceResult::Success { .. } => None,
    }
}

/// See [`semantic_status_json`]; nothing for a successful answer.
pub fn semantic_status(result: &SemanticReferenceResult) -> (r: Option<JsonValue>)
    ensures
        match r {
            Some(v) => semantic_status_json(*result) == Some(v@),
            None => semantic_status_json(*result) is None,
        },
{
    match result {
        SemanticReferenceResult::Disabled => Some(
            object2(
                "message",
                JsonValue::string("Semantic LSP references are disabled by --lsp off."),
                "status",
                JsonValue::string("disabled"),
            ),
        ),
        SemanticReferenceResult::Unsupported { language } => Some(
            object3(
                "language",
                JsonValue::String(language.clone()),
                "message",
                JsonValue::string("No optional LSP provider is supported for this symbol language."),
                "status",
                JsonValue::string("unsupported"),
            ),
        ),
        SemanticReferenceResult::Unavailable { provider, message } => Some(
            object3(
                "message",
                JsonValue::String(message.clone()),
                "provider",
                JsonValue::string(provider),
                "status",
                JsonValue::string("unavailable"),
            ),
        ),
        SemanticReferenceResult::NotApplicable { provider, message } => Some(
            object3(
                "message",
                JsonValue::String(message.clone()),
                "provider",
                JsonValue::string(provider),
                "status",
                JsonValue::string("not_applicable"),
            ),
        ),
        SemanticReferenceResult::Failed { provider, message } => Some(
            object3(
                "message",
                JsonValue::String(message.clone()),
                "provider",
                JsonValue::string(provider),
                "status",
                JsonValue::string("failed"),
            ),
        ),
        SemanticReferenceResult::Success { .. } => None,
    }
}

/// A successful semantic answer: its repository facts, in UTF-16
/// positions, and how many locations were left out.
pub open spec fn semantic_success_json(provider: Seq<char>, facts: Seq<SemanticLocationFact>, omitted: nat) -> JsonView {
    object_of(
        seq![
            ("locations"@, semantic_locations_json(facts)),
            ("omitted_locations"@, count(omitted)),
            ("position_encoding"@, text("utf-16"@)),
            ("provider"@, text(provider)),
            ("status"@, text("ok"@)),
            ("truncated"@, JsonView::Bool(omitted > 0)),
        ],
    )
}

/// See [`semantic_success_json`].
pub fn semantic_success(provider: &str, facts: &SemanticFacts) -> (r: JsonValue)
    ensures
        r@ == semantic_success_json(provider@, facts.facts@, facts.omitted as nat),
{
    let mut out: Vec<JsonValue> = Vec::new();
    let mut i: usize = 0;
    while i < facts.facts.len()
        invariant
            i <= facts.facts@.len(),
            out@.len() == i,
            forall|j: int| 0 <= j < i ==> (#[trigger] out@[j])@ == semantic_location_json(facts.facts@[j]),
        decreases facts.facts@.len() - i,
    {
        out.push(facts.facts[i].to_json());
        i = i + 1;
    }
    proof {
        lemma_items_view(out@, out@.len() as int);
        assert(items_view(out@, out@.len() as int) =~= facts.facts@.map_values(
            |f: SemanticLocationFact| semantic_location_json(f),
        ));
    }
    object6(
        "locations",
        JsonValue::Array(out),
        "omitted_locations",
        count_value(facts.omitted as u64),
        "position_encoding",
        JsonValue::string("utf-16"),
        "provider",
        JsonValue::string(provider),
        "status",
        JsonValue::string("ok"),
        "truncated",
        JsonValue::Bool(facts.omitted > 0),
    )
}

// ---------------------------------------------------------------------------
// Pages
// ---------------------------------------------------------------------------
/// An optional text or number, null when absent.
pub open spec fn opt_json_text(o: Option<Seq<char>>) -> JsonView {
    match o {
        Some(t) => JsonView::String(t),
        None => JsonView::Null,
    }
}

pub open spec fn opt_count(o: Option<usize>) -> JsonView {
    match o {
        Some(n) => count(n as nat),
        None => JsonView::Null,
    }
}

/// The cursor of the page that starts at `offset` within `scope`.
pub open spec fn cursor_at(generation: i64, offset: usize, scope: Seq<char>) -> Seq<char> {
    hex_lower(encode_utf8(cursor_json(PAGE_CURSOR_VERSION, generation, offset, scope)))
}

/// The scope a `search` page is bound to.
pub open spec fn search_scope_spec(
    root: Seq<char>,
    query: Seq<char>,
    kind: Option<NodeKind>,
    path_prefix: Option<Seq<char>>,
    scope: SymbolScope,
) -> Seq<char> {
    hex_lower(
        sha256(
            scope_bytes(
                seq![
                    "search"@,
                    root,
                    query,
                    match kind {
                        Some(k) => node_kind_name(k),
                        None => Seq::empty(),
                    },
                    match path_prefix {
                        Some(p) => p,
                        None => Seq::empty(),
                    },
                    symbol_scope_name(scope),
                ],
            ),
        ),
    )
}

/// See [`search_scope_spec`].
pub fn search_scope(root: &str, query: &str, kind: Option<NodeKind>, path_prefix: Option<&str>, scope: SymbolScope) -> (r:
    String)
    ensures
        r@ == search_scope_spec(
            root@,
            query@,
            kind,
            match path_prefix {
                Some(p) => Some(p@),
                None => None,
            },
            scope,
        ),
{
    let kind_name = match kind {
        Some(k) => k.as_str(),
        None => "",
    };
    let prefix = match path_prefix {
        Some(p) => p,
        None => "",
    };
    proof {
        reveal_strlit("");
    }
    let scope_name = scope.as_str();
    let parts = vec!["search", root, query, kind_name, prefix, scope_name];
    assert(kind_name@ == match kind {
        Some(k) => node_kind_name(k),
        None => Seq::<char>::empty(),
    });
    assert(prefix@ == match path_prefix {
        Some(p) => p@,
        None => Seq::<char>::empty(),
    });
    assert(parts@ == seq!["search", root, query, kind_name, prefix, scope_name]);
    let r = page_scope(parts.as_slice());
    let ghost pp: Option<Seq<char>> = match path_prefix {
        Some(p) => Some(p@),
        None => None,
    };
    assert(match pp {
        Some(p) => p,
        None => Seq::<char>::empty(),
    } == prefix@);
    assert(strs_view(parts@) =~= seq!["search"@, root@, query@, kind_name@, prefix@, scope_name@]);
    assert(symbol_scope_name(scope) == scope_name@);
    assert(seq!["search"@, root@, query@, kind_name@, prefix@, scope_name@] =~= seq![
        "search"@,
        root@,
        query@,
        match kind {
            Some(k) => node_kind_name(k),
            None => Seq::empty(),
        },
        match pp {
            Some(p) => p,
            None => Seq::empty(),
        },
        symbol_scope_name(scope),
    ]);
    assert(strs_view(parts@) =~= seq![
        "search"@,
        root@,
        query@,
        match kind {
            Some(k) => node_kind_name(k),
            None => Seq::empty(),
        },
        match path_prefix {
            Some(p) => p@,
            None => Seq::empty(),
        },
        symbol_scope_name(scope),
    ]);
    r
}

/// The scope an `outline` page is bound to.
pub open spec fn outline_scope_spec(root: Seq<char>, file_path: Seq<char>, kind: Option<NodeKind>, scope: SymbolScope) -> Seq<
    char,
> {
    hex_lower(
        sha256(
            scope_bytes(
                seq![
                    "outline"@,
                    root,
                    file_path,
                    match kind {
                        Some(k) => node_kind_name(k),
                        None => Seq::empty(),
                    },
                    symbol_scope_name(scope),
                ],
            ),
        ),
    )
}

/// See [`outline_scope_spec`].
pub fn outline_scope(root: &str, file_path: &str, kind: Option<NodeKind>, scope: SymbolScope) -> (r: String)
    ensures
        r@ == outline_scope_spec(root@, file_path@, kind, scope),
{
    let kind_name = match kind {
        Some(k) => k.as_str(),
        None => "",
    };
    proof {
        reveal_strlit("");
    }
    let scope_name = scope.as_str();
    let parts = vec!["outline", root, file_path, kind_name, scope_name];
    assert(kind_name@ == match kind {
        Some(k) => node_kind_name(k),
        None => Seq::<char>::empty(),
    });
    assert(parts@ == seq!["outline", root, file_path, kind_name, scope_name]);
    let r = page_scope(parts.as_slice());
    assert(strs_view(parts@) =~= seq![
        "outline"@,
        root@,
        file_path@,
        match kind {
            Some(k) => node_kind_name(k),
            None => Seq::empty(),
        },
        symbol_scope_name(scope),
    ]);
    r
}

pub open spec fn stale_search_message() -> Seq<char> {
    "The index changed after this page was issued. Restart the search from the first page so every result comes from one snapshot."@
}

/// A `search` continued with a cursor from an older snapshot.
pub open spec fn search_stale_json(f: Freshness, query: Seq<char>, scope: SymbolScope) -> JsonView {
    object_of(
        seq![
            ("freshness"@, freshness_json(f)),
            ("message"@, text(stale_search_message())),
            ("next_cursor"@, JsonView::Null),
            ("next_offset"@, JsonView::Null),
            ("query"@, text(query)),
            ("results"@, JsonView::Array(Seq::empty())),
            ("scope"@, text(symbol_scope_name(scope))),
            ("status"@, text("stale_cursor"@)),
        ],
    )
}

fn empty_array() -> (r: JsonValue)
    ensures
        r@ == JsonView::Array(Seq::empty()),
{
    let items: Vec<JsonValue> = Vec::new();
    proof {
        lemma_items_view(items@, 0);
    }
    JsonValue::Array(items)
}

/// See [`search_stale_json`].
pub fn search_stale_result(freshness: &Freshness, query: &str, scope: SymbolScope) -> (r: JsonValue)
    requires
        freshness.duration_ms <= u64::MAX,
    ensures
        r@ == search_stale_json(*freshness, query@, scope),
{
    object8(
        "freshness",
        freshness.to_json(),
        "message",
        JsonValue::string(
            "The index changed after this page was issued. Restart the search from the first page so every result comes from one snapshot.",
        ),
        "next_cursor",
        JsonValue::Null,
        "next_offset",
        JsonValue::Null,
        "query",
        JsonValue::string(query),
        "results",
        empty_array(),
        "scope",
        JsonValue::string(scope.as_str()),
        "status",
        JsonValue::string("stale_cursor"),
    )
}

pub open spec fn no_words_message() -> Seq<char> {
    "Search needs at least one identifier or word; raw grep is not supported."@
}

/// A `search` whose query holds no identifier or word.
pub open spec fn search_without_words_json(f: Freshness, query: Seq<char>, scope: SymbolScope, offset: usize) -> JsonView {
    object_of(
        seq![
            ("freshness"@, freshness_json(f)),
            ("message"@, text(no_words_message())),
            ("next_cursor"@, JsonView::Null),
            ("next_offset"@, JsonView::Null),
            ("offset"@, count(offset as nat)),
            ("query"@, text(query)),
            ("results"@, JsonView::Array(Seq::empty())),
            ("scope"@, text(symbol_scope_name(scope))),
            ("status"@, text("ok"@)),
        ],
    )
}

/// See [`search_without_words_json`].
pub fn search_without_words_result(freshness: &Freshness, query: &str, scope: SymbolScope, offset: usize) -> (r: JsonValue)
    requires
        freshness.duration_ms <= u64::MAX,
    ensures
        r@ == search_without_words_json(*freshness, query@, scope, offset),
{
    object9(
        "freshness",
        freshness.to_json(),
        "message",
        JsonValue::string("Search needs at least one identifier or word; raw grep is not supported."),
        "next_cursor",
        JsonValue::Null,
        "next_offset",
        JsonValue::Null,
        "offset",
        count_value(offset as u64),
        "query",
        JsonValue::string(query),
        "results",
        empty_array(),
        "scope",
        JsonValue::string(scope.as_str()),
        "status",
        JsonValue::string("ok"),
    )
}

/// One page of `search` results; when more follow, the next page's cursor
/// within `page_scope` and its offset.
pub open spec fn search_page_json(
    f: Freshness,
    query: Seq<char>,
    scope: SymbolScope,
    page_scope: Seq<char>,
    results: Seq<SymbolFact>,
    offset: usize,
    limit: usize,
    has_more: bool,
) -> JsonView {
    let next = sat_add(offset, limit);
    object_of(
        seq![
            ("bounded_by"@, count(limit as nat)),
            ("freshness"@, freshness_json(f)),
            ("next_cursor"@, opt_json_text(if has_more {
                Some(cursor_at(f.generation, next, page_scope))
            } else {
                None
            })),
            ("next_offset"@, opt_count(if has_more {
                Some(next)
            } else {
                None
            })),
            ("offset"@, count(offset as nat)),
            ("query"@, text(query)),
            ("results"@, symbol_facts_json(results)),
            ("scope"@, text(symbol_scope_name(scope))),
        ],
    )
}

fn next_page(generation: i64, offset: usize, limit: usize, page_scope: &str, more: bool) -> (r: (JsonValue, JsonValue))
    ensures
        r.0@ == opt_json_text(if more {
            Some(cursor_at(generation, sat_add(offset, limit), page_scope@))
        } else {
            None
        }),
        r.1@ == opt_count(if more {
            Some(sat_add(offset, limit))
        } else {
            None
        }),
{
    if more {
        let next = offset.saturating_add(limit);
        (
            JsonValue::String(encode_page_cursor(generation, next, page_scope)),
            count_value(next as u64),
        )
    } else {
        (JsonValue::Null, JsonValue::Null)
    }
}

/// See [`search_page_json`].
pub fn search_page_result(
    freshness: &Freshness,
    query: &str,
    scope: SymbolScope,
    page_scope: &str,
    results: &Vec<SymbolFact>,
    offset: usize,
    limit: usize,
    has_more: bool,
) -> (r: JsonValue)
    requires
        freshness.duration_ms <= u64::MAX,
    ensures
        r@ == search_page_json(*freshness, query@, scope, page_scope@, results@, offset, limit, has_more),
{
    let (cursor, next_offset) = next_page(freshness.generation, offset, limit, page_scope, has_more);
    object8(
        "bounded_by",
        count_value(limit as u64),
        "freshness",
        freshness.to_json(),
        "next_cursor",
        cursor,
        "next_offset",
        next_offset,
        "offset",
        count_value(offset as u64),
        "query",
        JsonValue::string(query),
        "results",
        symbol_facts_value(results),
        "scope",
        JsonValue::string(scope.as_str()),
    )
}

pub open spec fn stale_outline_message() -> Seq<char> {
    "The index changed after this page was issued. Restart the outline from the first page so every result comes from one snapshot."@
}

pub open spec fn opt_kind(kind: Option<NodeKind>) -> JsonView {
    match kind {
        Some(k) => text(node_kind_name(k)),
        None => JsonView::Null,
    }
}

fn opt_kind_value(kind: Option<NodeKind>) -> (r: JsonValue)
    ensures
        r@ == opt_kind(kind),
{
    match kind {
        Some(k) => JsonValue::string(k.as_str()),
        None => JsonValue::Null,
    }
}

/// An `outline` continued with a cursor from an older snapshot.
pub open spec fn outline_stale_json(f: Freshness, file_path: Seq<char>, kind: Option<NodeKind>, scope: SymbolScope) -> JsonView {
    object_of(
        seq![
            ("file_path"@, text(file_path)),
            ("freshness"@, freshness_json(f)),
            ("kind"@, opt_kind(kind)),
            ("message"@, text(stale_outline_message())),
            ("next_cursor"@, JsonView::Null),
            ("next_offset"@, JsonView::Null),
            ("scope"@, text(symbol_scope_name(scope))),
            ("status"@, text("stale_cursor"@)),
            ("symbols"@, JsonView::Array(Seq::empty())),
        ],
    )
}

/// See [`outline_stale_json`].
pub fn outline_stale_result(freshness: &Freshness, file_path: &str, kind: Option<NodeKind>, scope: SymbolScope) -> (r:
    JsonValue)
    requires
        freshness.duration_ms <= u64::MAX,
    ensures
        r@ == outline_stale_json(*freshness, file_path@, kind, scope),
{
    object9(
        "file_path",
        JsonValue::string(file_path),
        "freshness",
        freshness.to_json(),
        "kind",
        opt_kind_value(kind),
        "message",
        JsonValue::string(
            "The index changed after this page was issued. Restart the outline from the first page so every result comes from one snapshot.",
        ),
        "next_cursor",
        JsonValue::Null,
        "next_offset",
        JsonValue::Null,
        "scope",
        JsonValue::string(scope.as_str()),
        "status",
        JsonValue::string("stale_cursor"),
        "symbols",
        empty_array(),
    )
}

/// One page of an `outline`; when symbols follow, the next page's cursor
/// and offset.
pub open spec fn outline_page_json(
    f: Freshness,
    file_path: Seq<char>,
    kind: Option<NodeKind>,
    scope: SymbolScope,
    page_scope: Seq<char>,
    symbols: Seq<SymbolFact>,
    offset: usize,
    limit: usize,
    truncated: bool,
) -> JsonView {
    let next = sat_add(offset, limit);
    object_of(
        seq![
            ("bounded_by"@, count(limit as nat)),
            ("file_path"@, text(file_path)),
            ("freshness"@, freshness_json(f)),
            ("kind"@, opt_kind(kind)),
            ("next_cursor"@, opt_json_text(if truncated {
                Some(cursor_at(f.generation, next, page_scope))
            } else {
                None
            })),
            ("next_offset"@, opt_count(if truncated {
                Some(next)
            } else {
                None
            })),
            ("offset"@, count(offset as nat)),
            ("scope"@, text(symbol_scope_name(scope))),
            ("symbols"@, symbol_facts_json(symbols)),
            ("truncated"@, JsonView::Bool(truncated)),
        ],
    )
}

/// See [`outline_page_json`].
pub fn outline_page_result(
    freshness: &Freshness,
    file_path: &str,
    kind: Option<NodeKind>,
    scope: SymbolScope,
    page_scope: &str,
    symbols: &Vec<SymbolFact>,
    offset: usize,
    limit: usize,
    truncated: bool,
) -> (r: JsonValue)
    requires
        freshness.duration_ms <= u64::MAX,
    ensures
        r@ == outline_page_json(*freshness, file_path@, kind, scope, page_scope@, symbols@, offset, limit, truncated),
{
    let (cursor, next_offset) = next_page(freshness.generation, offset, limit, page_scope, truncated);
    object10(
        "bounded_by",
        count_value(limit as u64),
        "file_path",
        JsonValue::string(file_path),
        "freshness",
        freshness.to_json(),
        "kind",
        opt_kind_value(kind),
        "next_cursor",
        cursor,
        "next_offset",
        next_offset,
        "offset",
        count_value(offset as u64),
        "scope",
        JsonValue::string(scope.as_str()),
        "symbols",
        symbol_facts_value(symbols),
        "truncated",
        JsonValue::Bool(truncated),
    )
}

/// An `expand` symbol that names no indexed symbol, or several.
pub open spec fn expand_resolution_json(f: Freshness, symbol: Seq<char>, matches: Option<Seq<SymbolFact>>) -> JsonView {
    match matches {
        None => object_of(
            seq![
                ("freshness"@, freshness_json(f)),
                ("message"@, text("No indexed symbol matches this identifier."@)),
                ("status"@, text("not_found"@)),
                ("symbol"@, text(symbol)),
            ],
        ),
        Some(m) => object_of(
            seq![
                ("freshness"@, freshness_json(f)),
                ("matches"@, symbol_facts_json(m)),
                ("message"@, text("Use an exact symbol id or add file_path; CodeFacts does not guess."@)),
                ("status"@, text("ambiguous"@)),
                ("symbol"@, text(symbol)),
            ],
        ),
    }
}

/// See [`expand_resolution_json`].
pub fn expand_resolution_result(freshness: &Freshness, symbol: &str, matches: Option<&Vec<SymbolFact>>) -> (r: JsonValue)
    requires
        freshness.duration_ms <= u64::MAX,
    ensures
        r@ == expand_resolution_json(
            *freshness,
            symbol@,
            match matches {
                Some(m) => Some(m@),
                None => None,
            },
        ),
{
    match matches {
        None => object4(
            "freshness",
            freshness.to_json(),
            "message",
            JsonValue::string("No indexed symbol matches this identifier."),
            "status",
            JsonValue::string("not_found"),
            "symbol",
            JsonValue::string(symbol),
        ),
        Some(m) => object5(
            "freshness",
            freshness.to_json(),
            "matches",
            symbol_facts_value(m),
            "message",
            JsonValue::string("Use an exact symbol id or add file_path; CodeFacts does not guess."),
            "status",
            JsonValue::string("ambiguous"),
            "symbol",
            JsonValue::string(symbol),
        ),
    }
}

// ---------------------------------------------------------------------------
// Repository map
// ---------------------------------------------------------------------------
pub open spec fn strings_json(v: Seq<Seq<char>>) -> JsonView {
    JsonView::Array(v.map_values(|t: Seq<char>| JsonView::String(t)))
}

/// A provider's status; its detail is written only when it has one.
pub open spec fn server_report_json(r: ServerReportView) -> JsonView {
    match r.detail {
        Some(d) => object_of(
            seq![
                ("command"@, text(r.command)),
                ("detail"@, text(d)),
                ("languages"@, strings_json(r.languages)),
                ("provider"@, text(r.provider)),
                ("status"@, text(r.status)),
            ],
        ),
        None => object_of(
            seq![
                ("command"@, text(r.command)),
                ("languages"@, strings_json(r.languages)),
                ("provider"@, text(r.provider)),
                ("status"@, text(r.status)),
            ],
        ),
    }
}

pub open spec fn lsp_report_json(r: LspReport) -> JsonView {
    object_of(
        seq![
            ("mode"@, text(r.mode@)),
            ("servers"@, JsonView::Array(r.servers@.map_values(|s: LspServerReport| server_report_json(server_report_view(s))))),
            ("unsupported_languages"@, strings_json(r.unsupported_languages@.map_values(|t: String| t@))),
        ],
    )
}

fn strs_value(v: &Vec<&'static str>) -> (r: JsonValue)
    ensures
        r@ == strings_json(crate::lsp::strs_view(v@)),
{
    let mut out: Vec<JsonValue> = Vec::new();
    let mut i: usize = 0;
    while i < v.len()
        invariant
            i <= v@.len(),
            out@.len() == i,
            forall|j: int| 0 <= j < i ==> (#[trigger] out@[j])@ == JsonView::String(v@[j]@),
        decreases v@.len() - i,
    {
        out.push(JsonValue::string(v[i]));
        i = i + 1;
    }
    proof {
        lemma_items_view(out@, out@.len() as int);
        assert(items_view(out@, out@.len() as int) =~= crate::lsp::strs_view(v@).map_values(
            |t: Seq<char>| JsonView::String(t),
        ));
    }
    JsonValue::Array(out)
}

impl LspServerReport {
    pub fn to_json(&self) -> (r: JsonValue)
        ensures
            r@ == server_report_json(server_report_view(*self)),
    {
        match &self.detail {
            Some(d) => object5(
                "command",
                JsonValue::string(self.command),
                "detail",
                JsonValue::String(d.clone()),
                "languages",
                strs_value(&self.languages),
                "provider",
                JsonValue::string(self.provider),
                "status",
                JsonValue::string(self.status),
            ),
            None => object4(
                "command",
                JsonValue::string(self.command),
                "languages",
                strs_value(&self.languages),
                "provider",
                JsonValue::string(self.provider),
                "status",
                JsonValue::string(self.status),
            ),
        }
    }
}

impl LspReport {
    pub fn to_json(&self) -> (r: JsonValue)
        ensures
            r@ == lsp_report_json(*self),
    {
        let mut servers: Vec<JsonValue> = Vec::new();
        let mut i: usize = 0;
        while i < self.servers.len()
            invariant
                i <= self.servers@.len(),
                servers@.len() == i,
                forall|j: int|
                    0 <= j < i ==> (#[trigger] servers@[j])@ == server_report_json(server_report_view(self.servers@[j])),
            decreases self.servers@.len() - i,
        {
            servers.push(self.servers[i].to_json());
            i = i + 1;
        }
        let mut unsupported: Vec<JsonValue> = Vec::new();
        let mut k: usize = 0;
        while k < self.unsupported_languages.len()
            invariant
                k <= self.unsupported_languages@.len(),
                unsupported@.len() == k,
                forall|j: int|
                    0 <= j < k ==> (#[trigger] unsupported@[j])@ == JsonView::String(self.unsupported_languages@[j]@),
            decreases self.unsupported_languages@.len() - k,
        {
            unsupported.push(JsonValue::String(self.unsupported_languages[k].clone()));
            k = k + 1;
        }
        proof {
            lemma_items_view(servers@, servers@.len() as int);
            lemma_items_view(unsupported@, unsupported@.len() as int);
            assert(items_view(servers@, servers@.len() as int) =~= self.servers@.map_values(
                |s: LspServerReport| server_report_json(server_report_view(s)),
            ));
            assert(items_view(unsupported@, unsupported@.len() as int) =~= self.unsupported_languages@.map_values(
                |t: String| t@,
            ).map_values(|t: Seq<char>| JsonView::String(t)));
        }
        object3(
            "mode",
            JsonValue::string(self.mode),
            "servers",
            JsonValue::Array(servers),
            "unsupported_languages",
            JsonValue::Array(unsupported),
        )
    }
}

/// How often each name occurs, by name in key order.
pub open spec fn name_counts(names: Seq<Seq<char>>) -> Seq<(Seq<char>, JsonView)>
    decreases names.len(),
{
    if names.len() == 0 {
        Seq::empty()
    } else {
        let m = name_counts(names.drop_last());
        let n = names.last();
        let c: nat = match member_get(m, n) {
            Some(JsonView::Number(NumberView::PosInt(k))) => k as nat,
            _ => 0,
        };
        member_insert(m, n, count(c + 1))
    }
}

/// Every member is a count of at most `bound`.
pub open spec fn counts_at_most(m: Seq<(Seq<char>, JsonView)>, bound: nat) -> bool {
    forall|i: int|
        0 <= i < m.len() ==> ((#[trigger] m[i]).1 matches JsonView::Number(NumberView::PosInt(k)) && k <= bound)
}

proof fn lemma_insert_count(m: Seq<(Seq<char>, JsonView)>, key: Seq<char>, c: u64, bound: nat)
    requires
        counts_at_most(m, bound),
        c <= bound,
    ensures
        counts_at_most(member_insert(m, key, JsonView::Number(NumberView::PosInt(c))), bound),
{
    lemma_member_position_bounds(m, key, 0);
    let r = member_insert(m, key, JsonView::Number(NumberView::PosInt(c)));
    let p = member_position(m, key, 0);
    if p < 0 {
        let q = key_slot(m, key, 0);
        assert forall|i: int| 0 <= i < r.len() implies ((#[trigger] r[i]).1 matches JsonView::Number(
            NumberView::PosInt(k),
        ) && k <= bound) by {
            if i < q {
                assert(r[i] == m[i]);
            } else if i > q {
                assert(r[i] == m[i - 1]);
            }
        }
    }
}

/// Counts the names (see [`name_counts`]).
fn count_names(names: &Vec<&'static str>) -> (r: JsonValue)
    ensures
        r@ == JsonView::Object(name_counts(crate::lsp::strs_view(names@))),
{
    let ghost all = crate::lsp::strs_view(names@);
    let mut counts = JsonValue::object();
    let mut i: usize = 0;
    assert(all.take(0) =~= Seq::<Seq<char>>::empty());
    while i < names.len()
        invariant
            i <= names@.len(),
            all == crate::lsp::strs_view(names@),
            counts@ == JsonView::Object(name_counts(all.take(i as int))),
            counts_at_most(name_counts(all.take(i as int)), i as nat),
        decreases names@.len() - i,
    {
        let ghost m = name_counts(all.take(i as int));
        let ghost prefix = all.take(i + 1);
        assert(prefix.drop_last() =~= all.take(i as int));
        assert(prefix.last() == names@[i as int]@);
        let current: u64 = match counts.get(names[i]) {
            Some(JsonValue::Number(JsonNumber::PosInt(k))) => *k,
            _ => 0,
        };
        proof {
            lemma_member_position_bounds(m, names@[i as int]@, 0);
            if member_get(m, names@[i as int]@) is Some {
                let p = member_position(m, names@[i as int]@, 0);
                assert(m[p].1 == member_get(m, names@[i as int]@)->Some_0);
            }
        }
        assert(current <= i);
        counts.insert(names[i].to_owned(), JsonValue::Number(JsonNumber::PosInt(current + 1)));
        proof {
            lemma_insert_count(m, names@[i as int]@, (current + 1) as u64, (i + 1) as nat);
        }
        i = i + 1;
    }
    assert(all.take(names@.len() as int) =~= all);
    counts
}

/// The sum of the file counts.
pub open spec fn sum_counts(c: Seq<(String, usize)>) -> nat
    decreases c.len(),
{
    if c.len() == 0 {
        0
    } else {
        sum_counts(c.drop_last()) + c.last().1 as nat
    }
}

/// File counts by language, in the order given.
pub open spec fn file_counts_json(c: Seq<(String, usize)>) -> JsonView {
    JsonView::Object(c.map_values(|p: (String, usize)| (p.0@, count(p.1 as nat))))
}

/// The `map` overview: the repository, its freshness, how many files own
/// facts, how many files of each language were indexed (and their total),
/// how many symbols of each language and kind there are, the relationship
/// count, the LSP providers, and the unresolved references.
pub open spec fn map_json(
    f: Freshness,
    files: usize,
    symbols: usize,
    relationships: usize,
    languages: Seq<Seq<char>>,
    kinds: Seq<Seq<char>>,
    file_counts: Seq<(String, usize)>,
    unresolved: JsonView,
    lsp: LspReport,
) -> JsonView {
    object_of(
        seq![
            ("files"@, count(files as nat)),
            ("files_indexed_this_refresh"@, count(f.files_indexed as nat)),
            ("files_with_facts"@, count(files as nat)),
            ("freshness"@, freshness_json(f)),
            ("indexed_files"@, count(sum_counts(file_counts))),
            ("language_file_counts"@, file_counts_json(file_counts)),
            ("language_symbol_counts"@, JsonView::Object(name_counts(languages))),
            ("languages"@, file_counts_json(file_counts)),
            ("lsp"@, lsp_report_json(lsp)),
            ("relationships"@, count(relationships as nat)),
            ("repository"@, text(f.repository_root@)),
            ("symbol_kinds"@, JsonView::Object(name_counts(kinds))),
            ("symbols"@, count(symbols as nat)),
            ("unresolved_references"@, unresolved),
        ],
    )
}

pub open spec fn node_language_names(nodes: Seq<CodeNode>) -> Seq<Seq<char>> {
    nodes.map_values(|n: CodeNode| language_name(n.language))
}

pub open spec fn node_kind_names(nodes: Seq<CodeNode>) -> Seq<Seq<char>> {
    nodes.map_values(|n: CodeNode| node_kind_name(n.kind))
}

fn file_counts_value(c: &Vec<(String, usize)>) -> (r: (JsonValue, u64))
    requires
        sum_counts(c@) <= u64::MAX,
    ensures
        r.0@ == file_counts_json(c@),
        r.1 == sum_counts(c@),
{
    let mut members: Vec<(String, JsonValue)> = Vec::new();
    let mut total: u64 = 0;
    let mut i: usize = 0;
    while i < c.len()
        invariant
            i <= c@.len(),
            sum_counts(c@) <= u64::MAX,
            total == sum_counts(c@.take(i as int)),
            members@.len() == i,
            forall|j: int|
                0 <= j < i ==> (#[trigger] members@[j]).0@ == c@[j].0@ && members@[j].1@ == count(c@[j].1 as nat),
        decreases c@.len() - i,
    {
        proof {
            assert(c@.take(i + 1).drop_last() =~= c@.take(i as int));
            lemma_sum_counts_prefix(c@, i + 1);
        }
        members.push((c[i].0.clone(), count_value(c[i].1 as u64)));
        total = total + c[i].1 as u64;
        i = i + 1;
    }
    proof {
        assert(c@.take(c@.len() as int) =~= c@);
        lemma_members_view(members@, members@.len() as int);
        assert(members_view(members@, members@.len() as int) =~= c@.map_values(
            |p: (String, usize)| (p.0@, count(p.1 as nat)),
        ));
    }
    (JsonValue::Object(members), total)
}

proof fn lemma_sum_counts_prefix(c: Seq<(String, usize)>, k: int)
    requires
        0 <= k <= c.len(),
    ensures
        sum_counts(c.take(k)) <= sum_counts(c),
    decreases c.len() - k,
{
    if k < c.len() {
        lemma_sum_counts_prefix(c, k + 1);
        assert(c.take(k + 1).drop_last() =~= c.take(k));
    } else {
        assert(c.take(k) =~= c);
    }
}

/// See [`map_json`]; `nodes` are the indexed symbols and `file_counts` the
/// indexed files by language, whose total must fit a `u64`.
pub fn map_result(
    freshness: &Freshness,
    files: usize,
    symbols: usize,
    relationships: usize,
    nodes: &[CodeNode],
    file_counts: &Vec<(String, usize)>,
    unresolved: JsonValue,
    lsp: &LspReport,
) -> (r: JsonValue)
    requires
        freshness.duration_ms <= u64::MAX,
        sum_counts(file_counts@) <= u64::MAX,
    ensures
        r@ == map_json(
            *freshness,
            files,
            symbols,
            relationships,
            node_language_names(nodes@),
            node_kind_names(nodes@),
            file_counts@,
            unresolved@,
            *lsp,
        ),
{
    let mut languages: Vec<&'static str> = Vec::new();
    let mut kinds: Vec<&'static str> = Vec::new();
    let mut i: usize = 0;
    while i < nodes.len()
        invariant
            i <= nodes@.len(),
            languages@.len() == i,
            kinds@.len() == i,
            forall|j: int| 0 <= j < i ==> (#[trigger] languages@[j])@ == language_name(nodes@[j].language),
            forall|j: int| 0 <= j < i ==> (#[trigger] kinds@[j])@ == node_kind_name(nodes@[j].kind),
        decreases nodes@.len() - i,
    {
        languages.push(nodes[i].language.as_str());
        kinds.push(nodes[i].kind.as_str());
        i = i + 1;
    }
    assert(crate::lsp::strs_view(languages@) =~= node_language_names(nodes@));
    assert(crate::lsp::strs_view(kinds@) =~= node_kind_names(nodes@));
    let (by_language, total) = file_counts_value(file_counts);
    let (aliases, _) = file_counts_value(file_counts);
    let ghost w = seq![
        ("files"@, count(files as nat)),
        ("files_indexed_this_refresh"@, count(freshness.files_indexed as nat)),
        ("files_with_facts"@, count(files as nat)),
        ("freshness"@, freshness_json(*freshness)),
        ("indexed_files"@, count(sum_counts(file_counts@))),
        ("language_file_counts"@, file_counts_json(file_counts@)),
        ("language_symbol_counts"@, JsonView::Object(name_counts(node_language_names(nodes@)))),
        ("languages"@, file_counts_json(file_counts@)),
        ("lsp"@, lsp_report_json(*lsp)),
        ("relationships"@, count(relationships as nat)),
        ("repository"@, text(freshness.repository_root@)),
        ("symbol_kinds"@, JsonView::Object(name_counts(node_kind_names(nodes@)))),
        ("symbols"@, count(symbols as nat)),
        ("unresolved_references"@, unresolved@),
    ];
    let members = vec![
        ("files".to_owned(), count_value(files as u64)),
        ("files_indexed_this_refresh".to_owned(), count_value(freshness.files_indexed as u64)),
        ("files_with_facts".to_owned(), count_value(files as u64)),
        ("freshness".to_owned(), freshness.to_json()),
        ("indexed_files".to_owned(), count_value(total)),
        ("language_file_counts".to_owned(), by_language),
        ("language_symbol_counts".to_owned(), count_names(&languages)),
        ("languages".to_owned(), aliases),
        ("lsp".to_owned(), lsp.to_json()),
        ("relationships".to_owned(), count_value(relationships as u64)),
        ("repository".to_owned(), JsonValue::string(freshness.repository_root.as_str())),
        ("symbol_kinds".to_owned(), count_names(&kinds)),
        ("symbols".to_owned(), count_value(symbols as u64)),
        ("unresolved_references".to_owned(), unresolved),
    ];
    proof {
        lemma_members_view(members@, 14);
        assert(members_view(members@, 14) =~= w);
    }
    JsonValue::Object(members)
}

/// The value of a count member (zero for anything else).
pub open spec fn count_value_of(v: JsonView) -> int {
    match v {
        JsonView::Number(NumberView::PosInt(k)) => k as int,
        _ => 0,
    }
}

/// The sum of the counts of an object's members.
pub open spec fn counts_total(m: Seq<(Seq<char>, JsonView)>) -> int
    decreases m.len(),
{
    if m.len() == 0 {
        0
    } else {
        counts_total(m.drop_last()) + count_value_of(m.last().1)
    }
}

pub proof fn lemma_counts_total_concat(a: Seq<(Seq<char>, JsonView)>, b: Seq<(Seq<char>, JsonView)>)
    ensures
        counts_total(a + b) == counts_total(a) + counts_total(b),
    decreases b.len(),
{
    if b.len() > 0 {
        lemma_counts_total_concat(a, b.drop_last());
        assert((a + b).drop_last() =~= a + b.drop_last());
    }
}

/// The counts of `names` are each at most the number of names.
pub proof fn lemma_name_counts_bounded(names: Seq<Seq<char>>)
    ensures
        counts_at_most(name_counts(names), names.len()),
    decreases names.len(),
{
    if names.len() > 0 {
        let m = name_counts(names.drop_last());
        let n = names.last();
        lemma_name_counts_bounded(names.drop_last());
        lemma_member_position_bounds(m, n, 0);
        let c: nat = match member_get(m, n) {
            Some(JsonView::Number(NumberView::PosInt(k))) => k as nat,
            _ => 0,
        };
        if member_get(m, n) is Some {
            let p = member_position(m, n, 0);
            assert(m[p].1 == member_get(m, n)->Some_0);
        }
        assert(c <= names.len() - 1);
        lemma_insert_count(m, n, (c + 1) as u64, names.len());
    }
}

/// Counting one more name adds one to the total.
pub proof fn lemma_name_counts_total(names: Seq<Seq<char>>)
    requires
        names.len() < u64::MAX,
    ensures
        counts_total(name_counts(names)) == names.len(),
    decreases names.len(),
{
    if names.len() > 0 {
        let m = name_counts(names.drop_last());
        let n = names.last();
        lemma_name_counts_total(names.drop_last());
        lemma_name_counts_bounded(names.drop_last());
        lemma_member_position_bounds(m, n, 0);
        let c: nat = match member_get(m, n) {
            Some(JsonView::Number(NumberView::PosInt(k))) => k as nat,
            _ => 0,
        };
        if member_get(m, n) is Some {
            let p0 = member_position(m, n, 0);
            assert(m[p0].1 == member_get(m, n)->Some_0);
        }
        assert(c < u64::MAX);
        let x = (n, count(c + 1));
        assert(count_value_of(x.1) == c + 1);
        let p = member_position(m, n, 0);
        if p >= 0 {
            assert(m[p].1 == member_get(m, n)->Some_0);
            assert(count_value_of(m[p].1) == c);
            assert(m =~= m.take(p) + seq![m[p]] + m.skip(p + 1));
            assert(m.update(p, x) =~= m.take(p) + seq![x] + m.skip(p + 1));
            lemma_counts_total_concat(m.take(p) + seq![m[p]], m.skip(p + 1));
            lemma_counts_total_concat(m.take(p), seq![m[p]]);
            lemma_counts_total_concat(m.take(p) + seq![x], m.skip(p + 1));
            lemma_counts_total_concat(m.take(p), seq![x]);
            assert(counts_total(seq![x]) == c + 1) by {
                assert(seq![x].drop_last() =~= Seq::<(Seq<char>, JsonView)>::empty());
                assert(counts_total(Seq::<(Seq<char>, JsonView)>::empty()) == 0);
                assert(seq![x].last() == x);
            }
            assert(counts_total(seq![m[p]]) == c) by {
                assert(seq![m[p]].drop_last() =~= Seq::<(Seq<char>, JsonView)>::empty());
                assert(counts_total(Seq::<(Seq<char>, JsonView)>::empty()) == 0);
                assert(seq![m[p]].last() == m[p]);
            }
        } else {
            let q = key_slot(m, n, 0);
            assert(c == 0);
            assert(m =~= m.take(q) + m.skip(q));
            lemma_counts_total_concat(m.take(q), m.skip(q));
            lemma_counts_total_concat(m.take(q) + seq![x], m.skip(q));
            lemma_counts_total_concat(m.take(q), seq![x]);
            assert(counts_total(seq![x]) == 1) by {
                assert(seq![x].drop_last() =~= Seq::<(Seq<char>, JsonView)>::empty());
                assert(counts_total(Seq::<(Seq<char>, JsonView)>::empty()) == 0);
                assert(seq![x].last() == x);
            }
        }
    }
}

/// An `expand` answer: the definition, its Markdown section (null for code),
/// its static callers and callees, its inbound and outbound references and
/// semantic references, and its related tests.
pub open spec fn expand_json(
    f: Freshness,
    definition: SymbolFact,
    section: JsonView,
    callers: Seq<RelationshipFact>,
    callees: Seq<RelationshipFact>,
    inbound: Seq<RelationshipFact>,
    outbound: Seq<RelationshipFact>,
    semantic: JsonView,
    tests: Seq<SymbolFact>,
    limit: usize,
) -> JsonView {
    object_of(
        seq![
            ("bounded_by"@, count(limit as nat)),
            ("callees"@, relationship_facts_json(callees)),
            ("callers"@, relationship_facts_json(callers)),
            ("definition"@, symbol_fact_json(definition)),
            ("freshness"@, freshness_json(f)),
            (
                "references"@,
                object_of(
                    seq![
                        ("inbound"@, relationship_facts_json(inbound)),
                        ("outbound"@, relationship_facts_json(outbound)),
                        ("semantic"@, semantic),
                    ],
                ),
            ),
            ("section"@, section),
            ("status"@, text("ok"@)),
            ("tests"@, symbol_facts_json(tests)),
        ],
    )
}

/// See [`expand_json`].
pub fn expand_result(
    freshness: &Freshness,
    definition: &SymbolFact,
    section: JsonValue,
    callers: &Vec<RelationshipFact>,
    callees: &Vec<RelationshipFact>,
    inbound: &Vec<RelationshipFact>,
    outbound: &Vec<RelationshipFact>,
    semantic: JsonValue,
    tests: &Vec<SymbolFact>,
    limit: usize,
) -> (r: JsonValue)
    requires
        freshness.duration_ms <= u64::MAX,
    ensures
        r@ == expand_json(
            *freshness,
            *definition,
            section@,
            callers@,
            callees@,
            inbound@,
            outbound@,
            semantic@,
            tests@,
            limit,
        ),
{
    let references = object3(
        "inbound",
        relationship_facts_value(inbound),
        "outbound",
        relationship_facts_value(outbound),
        "semantic",
        semantic,
    );
    object9(
        "bounded_by",
        count_value(limit as u64),
        "callees",
        relationship_facts_value(callees),
        "callers",
        relationship_facts_value(callers),
        "definition",
        definition.to_json(),
        "freshness",
        freshness.to_json(),
        "references",
        references,
        "section",
        section,
        "status",
        JsonValue::string("ok"),
        "tests",
        symbol_facts_value(tests),
    )
}

} // verus!
