//! Read-only, source-backed CodeFacts workflows: the pure parts.
//!
//! Paging, search filters, path normalization and the construction of the
//! evidence records that every tool result carries.
use vstd::prelude::*;

use crate::error::{error_view, CodeFactsError, ErrorView};
use crate::lsp::{LspManager, LspMode};
use crate::json::{object4, object_of, JsonNumber, JsonValue, JsonView, NumberView};
use crate::text::{
    append_chars, char_is_alphanumeric, char_utf8_width, chars_equal, chars_of, copy_range, decimal, decimal_chars, digit,
    digit_char, join, starts_with, starts_with_chars, string_from_chars, unicode_alphanumeric, utf8_width,
};
use crate::types::{
    copy_opt_string, edge_kind_name, edge_metadata, language_name, node_kind_name, opt_view,
    CodeEdge, CodeNode, Language, NodeKind, NodeView,
};

pub mod cursor;
pub mod expand;
pub mod pages;
pub mod path;
pub mod registry;
pub mod results;

verus! {

/// Page size when a request names none.
pub const DEFAULT_LIMIT: usize = 20;

/// Largest page size a request may ask for.
pub const MAX_LIMIT: usize = 50;

/// Unresolved-reference samples reported by `map`.
pub const UNRESOLVED_REFERENCE_SAMPLE_LIMIT: usize = 20;

/// Symbols a path search may visit.
pub const PATH_SEARCH_VISIT_LIMIT: usize = 5000;

/// Longest Markdown section text in a response, in UTF-8 bytes.
pub const MAX_MARKDOWN_SECTION_RESPONSE_LEN: usize = 2048;

/// How fresh the facts of one response are.
#[derive(Debug)]
pub struct Freshness {
    pub status: &'static str,
    /// Canonical repository identity for this fact snapshot.
    pub repository_root: String,
    /// Monotonically increasing fact-store generation.
    pub generation: i64,
    /// Supported source files parsed or re-parsed during this refresh.
    pub files_indexed: usize,
    pub files_skipped: usize,
    /// Existing edge occurrences whose target binding was recomputed.
    pub relationships_rebound: usize,
    pub duration_ms: u128,
}

/// Where a fact comes from and how certain it is.
#[derive(Debug)]
pub struct Evidence {
    pub file_path: String,
    pub start_line: u32,
    pub end_line: u32,
    pub source_hash: Option<String>,
    pub extractor: String,
    pub confidence: String,
}

/// One symbol with its evidence.
#[derive(Debug)]
pub struct SymbolFact {
    pub id: String,
    pub name: String,
    pub qualified_name: Option<String>,
    pub kind: String,
    pub language: String,
    pub evidence: Evidence,
}

/// One relationship between two symbols with its evidence.
#[derive(Debug)]
pub struct RelationshipFact {
    pub kind: String,
    pub from: SymbolFact,
    pub to: SymbolFact,
    pub evidence: Evidence,
    /// Why this relationship resolves to a candidate set rather than a
    /// confirmed single target. Absent for ordinary static facts.
    pub resolution: Option<String>,
}

/// One semantic reference location with its evidence.
#[derive(Debug)]
pub struct SemanticLocationFact {
    pub evidence: Evidence,
    pub start_column: u32,
    pub end_column: u32,
}

/// One unresolved import or reference with its evidence.
#[derive(Debug)]
pub struct UnresolvedReferenceFact {
    pub specifier: String,
    pub kind: String,
    pub evidence: Evidence,
}

/// Summary of one indexing run.
#[derive(Debug, Clone, Copy)]
pub struct IndexResult {
    pub files_indexed: usize,
    pub files_skipped: usize,
    pub nodes_created: usize,
    pub edges_created: usize,
    pub relationships_rebound: usize,
    pub duration_ms: u128,
}

/// The freshness record of a completed refresh.
pub fn freshness(result: IndexResult, repository_root: String, generation: i64) -> (r: Freshness)
    ensures
        r.status@ == "fresh"@,
        r.repository_root == repository_root,
        r.generation == generation,
        r.files_indexed == result.files_indexed,
        r.files_skipped == result.files_skipped,
        r.relationships_rebound == result.relationships_rebound,
        r.duration_ms == result.duration_ms,
{
    Freshness {
        status: "fresh",
        repository_root,
        generation,
        files_indexed: result.files_indexed,
        files_skipped: result.files_skipped,
        relationships_rebound: result.relationships_rebound,
        duration_ms: result.duration_ms,
    }
}

/// Discovery scope for `search` and `outline`.
///
/// `TopLevel` keeps structural symbols while excluding variables declared
/// inside a function or method. `All` retains every indexed symbol.
#[derive(Debug, Clone, Copy, PartialEq, Eq, Structural)]
pub enum SymbolScope {
    TopLevel,
    All,
}

pub open spec fn symbol_scope_name(scope: SymbolScope) -> Seq<char> {
    match scope {
        SymbolScope::TopLevel => "top_level"@,
        SymbolScope::All => "all"@,
    }
}

impl SymbolScope {
    /// The spelling that [`SymbolScope::parse`] accepts.
    pub fn as_str(self) -> (r: &'static str)
        ensures
            r@ == symbol_scope_name(self),
    {
        match self {
            SymbolScope::TopLevel => "top_level",
            SymbolScope::All => "all",
        }
    }

    /// Parses `top_level` or `all`.
    pub fn parse(input: &str) -> (r: Option<Self>)
        ensures
            r == (if input@ == "top_level"@ {
                Some(SymbolScope::TopLevel)
            } else if input@ == "all"@ {
                Some(SymbolScope::All)
            } else {
                None
            }),
    {
        let v = chars_of(input);
        if chars_equal(v.as_slice(), chars_of("top_level").as_slice()) {
            Some(SymbolScope::TopLevel)
        } else if chars_equal(v.as_slice(), chars_of("all").as_slice()) {
            Some(SymbolScope::All)
        } else {
            None
        }
    }
}

/// The page size of a request: 20 by default, clamped to `1..=50`.
pub open spec fn bounded_limit_spec(limit: Option<usize>) -> usize {
    match limit {
        None => 20,
        Some(l) => if l < 1 {
            1
        } else if l > 50 {
            50
        } else {
            l
        },
    }
}

/// The page size of a request: 20 by default, clamped to `1..=50`.
pub fn bounded_limit(limit: Option<usize>) -> (r: usize)
    ensures
        r == bounded_limit_spec(limit),
        1 <= r <= MAX_LIMIT,
{
    let l = match limit {
        None => DEFAULT_LIMIT,
        Some(l) => l,
    };
    if l < 1 {
        1
    } else if l > MAX_LIMIT {
        MAX_LIMIT
    } else {
        l
    }
}

/// Characters that belong to a search word.
pub open spec fn word_char(c: char) -> bool {
    unicode_alphanumeric(c) || c == '_'
}

/// The maximal runs of word characters of `s[i..]`, after the run `cur`
/// in progress and the runs `acc` already complete.
pub open spec fn tokens_acc(
    s: Seq<char>,
    i: int,
    cur: Seq<char>,
    acc: Seq<Seq<char>>,
) -> Seq<Seq<char>>
    decreases s.len() - i,
{
    if i < 0 || i >= s.len() {
        if cur.len() > 0 {
            acc.push(cur)
        } else {
            acc
        }
    } else if word_char(s[i]) {
        tokens_acc(s, i + 1, cur.push(s[i]), acc)
    } else {
        tokens_acc(
            s,
            i + 1,
            Seq::empty(),
            if cur.len() > 0 {
                acc.push(cur)
            } else {
                acc
            },
        )
    }
}

/// The words of a query: maximal runs of alphanumeric characters and `_`.
pub open spec fn word_tokens(s: Seq<char>) -> Seq<Seq<char>> {
    tokens_acc(s, 0, Seq::empty(), Seq::empty())
}

/// A non-word character right after `q` closes the run in progress: the
/// words of `s` from `i <= q.len()` are those of `q` from `i`, then those of
/// `s` after that character.
pub proof fn lemma_tokens_break(s: Seq<char>, q: Seq<char>, i: int, cur: Seq<char>, acc: Seq<Seq<char>>)
    requires
        0 <= i <= q.len() < s.len(),
        s.take(q.len() as int) == q,
        !word_char(s[q.len() as int]),
    ensures
        tokens_acc(s, i, cur, acc) == tokens_acc(s, q.len() + 1int, Seq::empty(), tokens_acc(q, i, cur, acc)),
    decreases q.len() - i,
{
    if i < q.len() {
        assert(s[i] == s.take(q.len() as int)[i]);
        lemma_tokens_break(
            s,
            q,
            i + 1,
            if word_char(s[i]) {
                cur.push(s[i])
            } else {
                Seq::empty()
            },
            if word_char(s[i]) || cur.len() == 0 {
                acc
            } else {
                acc.push(cur)
            },
        );
    }
}

/// A run of non-word characters adds no word.
pub proof fn lemma_tokens_skip(s: Seq<char>, i: int, j: int, acc: Seq<Seq<char>>)
    requires
        0 <= i <= j <= s.len(),
        forall|k: int| i <= k < j ==> !word_char(#[trigger] s[k]),
    ensures
        tokens_acc(s, i, Seq::empty(), acc) == tokens_acc(s, j, Seq::empty(), acc),
    decreases j - i,
{
    if i < j {
        lemma_tokens_skip(s, i + 1, j, acc);
    }
}

/// A final run of word characters is one more word.
pub proof fn lemma_tokens_last_word(s: Seq<char>, i: int, k: int, acc: Seq<Seq<char>>)
    requires
        0 <= i <= k <= s.len(),
        i < s.len(),
        forall|m: int| i <= m < s.len() ==> word_char(#[trigger] s[m]),
    ensures
        tokens_acc(s, k, s.subrange(i, k), acc) == acc.push(s.subrange(i, s.len() as int)),
    decreases s.len() - k,
{
    if k < s.len() {
        assert(s.subrange(i, k).push(s[k]) =~= s.subrange(i, k + 1));
        lemma_tokens_last_word(s, i, k + 1, acc);
    }
}

/// The words of `q`, a run of non-word characters and a word `b` are the
/// words of `q` followed by `b`.
pub proof fn lemma_tokens_append_word(q: Seq<char>, sep: Seq<char>, b: Seq<char>)
    requires
        sep.len() > 0,
        forall|k: int| 0 <= k < sep.len() ==> !word_char(#[trigger] sep[k]),
        b.len() > 0,
        forall|k: int| 0 <= k < b.len() ==> word_char(#[trigger] b[k]),
    ensures
        word_tokens(q + sep + b) == word_tokens(q).push(b),
{
    let s = q + sep + b;
    let n = q.len() as int;
    let m = (q.len() + sep.len()) as int;
    assert(s.take(n) =~= q);
    assert(s[n] == sep[0]);
    lemma_tokens_break(s, q, 0, Seq::empty(), Seq::empty());
    assert forall|k: int| n + 1 <= k < m implies !word_char(#[trigger] s[k]) by {
        assert(s[k] == sep[k - n]);
    }
    lemma_tokens_skip(s, n + 1, m, word_tokens(q));
    assert forall|k: int| m <= k < s.len() implies word_char(#[trigger] s[k]) by {
        assert(s[k] == b[k - m]);
    }
    assert(s.subrange(m, m) =~= Seq::<char>::empty());
    lemma_tokens_last_word(s, m, m, word_tokens(q));
    assert(s.subrange(m, s.len() as int) =~= b);
}

/// FTS prefix term of one word: `"word"*`.
pub open spec fn fts_term(w: Seq<char>) -> Seq<char> {
    seq!['"'] + w + seq!['"', '*']
}

/// The FTS query of a search: every word as a prefix term, joined by ` AND `;
/// nothing when the query has no word.
pub open spec fn fts_query_spec(query: Seq<char>) -> Option<Seq<char>> {
    let tokens = word_tokens(query);
    if tokens.len() == 0 {
        None
    } else {
        Some(join(tokens.map_values(|w: Seq<char>| fts_term(w)), " AND "@))
    }
}

/// Builds the FTS query of a search; a query without words has none.
pub fn fts_query(query: &str) -> (r: Option<String>)
    ensures
        opt_view(r) == fts_query_spec(query@),
{
    let q = chars_of(query);
    let mut tokens: Vec<Vec<char>> = Vec::new();
    let mut cur: Vec<char> = Vec::new();
    let mut i: usize = 0;
    assert(tokens@.map_values(|t: Vec<char>| t@) =~= Seq::<Seq<char>>::empty());
    assert(cur@ =~= Seq::<char>::empty());
    while i < q.len()
        invariant
            i <= q@.len(),
            tokens_acc(q@, 0, Seq::empty(), Seq::empty()) == tokens_acc(
                q@,
                i as int,
                cur@,
                tokens@.map_values(|t: Vec<char>| t@),
            ),
        decreases q@.len() - i,
    {
        let c = q[i];
        if char_is_alphanumeric(c) || c == '_' {
            cur.push(c);
        } else {
            if cur.len() > 0 {
                let ghost before = tokens@.map_values(|t: Vec<char>| t@);
                let ghost cur_view = cur@;
                tokens.push(cur);
                assert(tokens@.map_values(|t: Vec<char>| t@) =~= before.push(cur_view));
            }
            cur = Vec::new();
        }
        i = i + 1;
    }
    if cur.len() > 0 {
        let ghost before = tokens@.map_values(|t: Vec<char>| t@);
        let ghost cur_view = cur@;
        tokens.push(cur);
        assert(tokens@.map_values(|t: Vec<char>| t@) =~= before.push(cur_view));
    }
    let ghost words = tokens@.map_values(|t: Vec<char>| t@);
    assert(words == word_tokens(query@));
    if tokens.len() == 0 {
        return None;
    }
    let sep = chars_of(" AND ");
    let ghost terms = words.map_values(|w: Seq<char>| fts_term(w));
    let mut out: Vec<char> = Vec::new();
    let mut k: usize = 0;
    assert(join(terms.take(0), sep@) =~= out@);
    while k < tokens.len()
        invariant
            k <= tokens@.len(),
            words == tokens@.map_values(|t: Vec<char>| t@),
            terms == words.map_values(|w: Seq<char>| fts_term(w)),
            out@ == join(terms.take(k as int), sep@),
        decreases tokens@.len() - k,
    {
        if k > 0 {
            append_chars(&mut out, sep.as_slice());
        }
        out.push('"');
        append_chars(&mut out, tokens[k].as_slice());
        out.push('"');
        out.push('*');
        proof {
            let parts = terms.take(k + 1);
            assert(parts.drop_last() =~= terms.take(k as int));
            assert(parts.last() == fts_term(tokens@[k as int]@));
            if k > 0 {
                assert(out@ =~= join(parts.drop_last(), sep@) + sep@ + parts.last());
            } else {
                assert(out@ =~= parts[0]);
            }
        }
        k = k + 1;
    }
    assert(terms.take(tokens@.len() as int) =~= terms);
    Some(string_from_chars(out.as_slice()))
}

/// Whether `path` is `prefix` or lies below the directory `prefix`.
pub open spec fn path_matches_prefix_spec(path: Seq<char>, prefix: Seq<char>) -> bool {
    path == prefix || (starts_with(path, prefix) && path.len() > prefix.len() && path[prefix.len()
        as int] == '/')
}

/// Whether `path` is `prefix` or lies below the directory `prefix`; the
/// separator keeps `src` from matching `src-old`.
pub fn path_matches_prefix(path: &str, prefix: &str) -> (r: bool)
    ensures
        r == path_matches_prefix_spec(path@, prefix@),
{
    let p = chars_of(path);
    let pre = chars_of(prefix);
    if chars_equal(p.as_slice(), pre.as_slice()) {
        return true;
    }
    crate::text::starts_with_chars(p.as_slice(), pre.as_slice()) && p.len() > pre.len()
        && p[pre.len()] == '/'
}

/// Whether a node passes the optional kind and path-prefix filters.
pub fn node_matches_filters(node: &CodeNode, kind: Option<NodeKind>, path_prefix: Option<&str>) -> (r:
    bool)
    ensures
        r == ((match kind {
            Some(k) => node.kind == k,
            None => true,
        }) && (match path_prefix {
            Some(p) => path_matches_prefix_spec(node.file_path@, p@),
            None => true,
        })),
{
    let kind_ok = match kind {
        Some(k) => node.kind == k,
        None => true,
    };
    kind_ok && match path_prefix {
        Some(p) => path_matches_prefix(node.file_path.as_str(), p),
        None => true,
    }
}

/// Whether `enclosing` is a function or method, other than `node`, whose
/// line range contains `node`.
pub open spec fn encloses(enclosing: CodeNode, node: CodeNode) -> bool {
    (enclosing.kind == NodeKind::Function || enclosing.kind == NodeKind::Method)
        && enclosing.id@ != node.id@ && enclosing.start_line <= node.start_line && enclosing.end_line
        >= node.end_line
}

/// Whether `node` is a variable declared inside a function or method of its file.
pub fn is_local_variable(node: &CodeNode, file_nodes: &[CodeNode]) -> (r: bool)
    ensures
        r == (node.kind == NodeKind::Variable && exists|i: int|
            0 <= i < file_nodes@.len() && encloses(#[trigger] file_nodes@[i], *node)),
{
    if node.kind != NodeKind::Variable {
        return false;
    }
    let id = chars_of(node.id.as_str());
    let mut i: usize = 0;
    while i < file_nodes.len()
        invariant
            i <= file_nodes@.len(),
            id@ == node.id@,
            node.kind == NodeKind::Variable,
            forall|j: int| 0 <= j < i ==> !encloses(#[trigger] file_nodes@[j], *node),
        decreases file_nodes@.len() - i,
    {
        let e = &file_nodes[i];
        let callable = e.kind == NodeKind::Function || e.kind == NodeKind::Method;
        if callable && !chars_equal(chars_of(e.id.as_str()).as_slice(), id.as_slice())
            && e.start_line <= node.start_line && e.end_line >= node.end_line {
            assert(encloses(file_nodes@[i as int], *node));
            assert(exists|i: int| 0 <= i < file_nodes@.len() && encloses(#[trigger] file_nodes@[i], *node));
            return true;
        }
        i = i + 1;
    }
    false
}

/// Extractor that produced a symbol.
pub open spec fn extractor_for_spec(kind: NodeKind) -> Seq<char> {
    match kind {
        NodeKind::Endpoint => "endpoint-ast"@,
        NodeKind::Heading => "markdown-heading"@,
        _ => "tree-sitter"@,
    }
}

/// Extractor that produced a symbol.
pub fn extractor_for(node: &CodeNode) -> (r: &'static str)
    ensures
        r@ == extractor_for_spec(node.kind),
{
    match node.kind {
        NodeKind::Endpoint => "endpoint-ast",
        NodeKind::Heading => "markdown-heading",
        _ => "tree-sitter",
    }
}

/// Confidence of a symbol fact: endpoints are heuristic candidates.
pub open spec fn confidence_for_spec(kind: NodeKind) -> Seq<char> {
    match kind {
        NodeKind::Endpoint => "heuristic"@,
        _ => "confirmed"@,
    }
}

/// Confidence of a symbol fact.
pub fn confidence_for(node: &CodeNode) -> (r: &'static str)
    ensures
        r@ == confidence_for_spec(node.kind),
{
    match node.kind {
        NodeKind::Endpoint => "heuristic",
        _ => "confirmed",
    }
}

/// Extractor recorded on an edge, `tree-sitter` by default.
pub fn extractor_for_edge(edge: &CodeEdge) -> (r: String)
    ensures
        r@ == match edge_metadata(edge@, "extractor"@) {
            Some(e) => e,
            None => "tree-sitter"@,
        },
{
    match edge.metadata_value("extractor") {
        Some(e) => e,
        None => "tree-sitter".to_owned(),
    }
}

/// The evidence-bearing fact of a symbol; `source_hash` is the stored hash
/// of its file.
pub fn symbol_fact(node: &CodeNode, source_hash: Option<String>) -> (r: SymbolFact)
    ensures
        r.id@ == node.id@,
        r.name@ == node.name@,
        opt_view(r.qualified_name) == opt_view(node.qualified_name),
        r.kind@ == node_kind_name(node.kind),
        r.language@ == language_name(node.language),
        r.evidence.file_path@ == node.file_path@,
        r.evidence.start_line == node.start_line,
        r.evidence.end_line == node.end_line,
        r.evidence.source_hash == source_hash,
        r.evidence.extractor@ == extractor_for_spec(node.kind),
        r.evidence.confidence@ == confidence_for_spec(node.kind),
{
    SymbolFact {
        id: node.id.clone(),
        name: node.name.clone(),
        qualified_name: copy_opt_string(&node.qualified_name),
        kind: node.kind.as_str().to_owned(),
        language: node.language.as_str().to_owned(),
        evidence: Evidence {
            file_path: node.file_path.clone(),
            start_line: node.start_line,
            end_line: node.end_line,
            source_hash,
            extractor: extractor_for(node).to_owned(),
            confidence: confidence_for(node).to_owned(),
        },
    }
}

/// The evidence-bearing fact of a relationship between two resolved symbols.
pub fn relationship_fact(edge: &CodeEdge, from: SymbolFact, to: SymbolFact, source_hash: Option<String>) -> (r:
    RelationshipFact)
    ensures
        r.kind@ == edge_kind_name(edge.kind),
        r.from == from,
        r.to == to,
        r.evidence.file_path@ == edge.file_path@,
        r.evidence.start_line == edge.line,
        r.evidence.end_line == edge.line,
        r.evidence.source_hash == source_hash,
        r.evidence.extractor@ == match edge_metadata(edge@, "extractor"@) {
            Some(e) => e,
            None => "tree-sitter"@,
        },
        r.evidence.confidence@ == match edge_metadata(edge@, "confidence"@) {
            Some(c) => c,
            None => "static"@,
        },
        opt_view(r.resolution) == edge_metadata(edge@, "resolution"@),
{
    let confidence = match edge.metadata_value("confidence") {
        Some(c) => c,
        None => "static".to_owned(),
    };
    RelationshipFact {
        kind: edge.kind.as_str().to_owned(),
        from,
        to,
        evidence: Evidence {
            file_path: edge.file_path.clone(),
            start_line: edge.line,
            end_line: edge.line,
            source_hash,
            extractor: extractor_for_edge(edge),
            confidence,
        },
        resolution: edge.metadata_value("resolution"),
    }
}

// ---------------------------------------------------------------------------
// Repository-relative paths
// ---------------------------------------------------------------------------
/// Whether some `/`-separated segment of `path` is `..`.
pub open spec fn has_parent_segment(path: Seq<char>) -> bool {
    exists|k: int|
        0 <= k && k + 2 <= path.len() && #[trigger] path[k] == '.' && path[k + 1] == '.' && (k == 0
            || path[k - 1] == '/') && (k + 2 == path.len() || path[k + 2] == '/')
}

/// A relative `file_path` argument: refused when it climbs out of the
/// repository, otherwise spelled with `/` separators.
pub open spec fn relative_path_spec(input: Seq<char>) -> Result<Seq<char>, ErrorView> {
    if has_parent_segment(input) {
        Err(ErrorView::Other("file_path must not escape the repository root"@))
    } else {
        Ok(input.map_values(|c: char| if c == '\\' { '/' } else { c }))
    }
}

/// Normalizes a relative `file_path` argument (absolute paths are first made
/// relative to the canonical repository root by the caller).
pub fn relative_path(input: &str) -> (r: Result<String, CodeFactsError>)
    ensures
        match r {
            Ok(p) => relative_path_spec(input@) == Ok::<Seq<char>, ErrorView>(p@),
            Err(e) => relative_path_spec(input@) == Err::<Seq<char>, ErrorView>(error_view(e)),
        },
{
    let p = chars_of(input);
    let mut k: usize = 0;
    while k < p.len()
        invariant
            k <= p@.len(),
            p@ == input@,
            forall|j: int|
                0 <= j < k ==> !(j + 2 <= p@.len() && #[trigger] p@[j] == '.' && p@[j + 1] == '.'
                    && (j == 0 || p@[j - 1] == '/') && (j + 2 == p@.len() || p@[j + 2] == '/')),
        decreases p@.len() - k,
    {
        if p.len() - k >= 2 && p[k] == '.' && p[k + 1] == '.' && (k == 0 || p[k - 1] == '/') && (
        p.len() - k == 2 || p[k + 2] == '/') {
            return Err(
                CodeFactsError::Other("file_path must not escape the repository root".to_owned()),
            );
        }
        k = k + 1;
    }
    let mut out: Vec<char> = Vec::new();
    let mut i: usize = 0;
    while i < p.len()
        invariant
            i <= p@.len(),
            out@ == p@.take(i as int).map_values(|c: char| if c == '\\' { '/' } else { c }),
        decreases p@.len() - i,
    {
        let c = p[i];
        out.push(if c == '\\' { '/' } else { c });
        assert(out@ =~= p@.take(i + 1).map_values(|c: char| if c == '\\' { '/' } else { c }));
        i = i + 1;
    }
    assert(p@.take(p@.len() as int) =~= p@);
    Ok(string_from_chars(out.as_slice()))
}

/// A path-prefix filter: the relative path without trailing `/`; none when
/// it names the whole repository.
pub open spec fn normalized_path_prefix_spec(input: Seq<char>) -> Result<Option<Seq<char>>, ErrorView> {
    match relative_path_spec(input) {
        Err(e) => Err(e),
        Ok(p) => {
            let q = crate::text::trim_end_char(p, '/');
            if q.len() == 0 || q == seq!['.'] {
                Ok(None)
            } else {
                Ok(Some(q))
            }
        },
    }
}

/// Normalizes a `path_prefix` argument.
pub fn normalized_path_prefix(input: &str) -> (r: Result<Option<String>, CodeFactsError>)
    ensures
        match r {
            Ok(p) => normalized_path_prefix_spec(input@) == Ok::<Option<Seq<char>>, ErrorView>(opt_view(p)),
            Err(e) => normalized_path_prefix_spec(input@) == Err::<Option<Seq<char>>, ErrorView>(
                error_view(e),
            ),
        },
{
    let prefix = relative_path(input)?;
    let chars = chars_of(prefix.as_str());
    let q = crate::text::trim_end_char_chars(chars.as_slice(), '/');
    if q.len() == 0 || (q.len() == 1 && q[0] == '.') {
        assert(q.len() == 1 ==> q@ =~= seq!['.']);
        Ok(None)
    } else {
        assert(q@ != seq!['.']) by {
            if q@.len() == 1 {
                assert(q@[0] != '.');
            }
        }
        Ok(Some(string_from_chars(q.as_slice())))
    }
}

// ---------------------------------------------------------------------------
// Snapshot-bound paging
// ---------------------------------------------------------------------------
/// Version of the page cursor format.
pub const PAGE_CURSOR_VERSION: u8 = 1;

/// The decoded content of an opaque page cursor.
#[derive(Debug)]
pub struct PageCursor {
    pub version: u8,
    pub generation: i64,
    pub offset: usize,
    pub scope: String,
    /// For semantic-reference pages of `expand`: the hash of the complete
    /// semantic answer the page belongs to.
    pub semantic_snapshot: Option<String>,
}

/// Where a page starts, or that its snapshot is gone.
#[derive(Debug, Clone, Copy, PartialEq, Eq, Structural)]
pub enum PageOffset {
    Current(usize),
    Stale,
}

/// The start of a page: the legacy offset when no cursor is given; the
/// cursor's offset when it belongs to this request and snapshot; `Stale`
/// when the index has moved on.
pub open spec fn page_offset_spec(
    cursor: Option<Result<PageCursor, ()>>,
    offset: usize,
    generation: i64,
    scope: Seq<char>,
) -> Result<PageOffset, ErrorView> {
    match cursor {
        None => Ok(PageOffset::Current(offset)),
        Some(decoded) => if offset != 0 {
            Err(ErrorView::Other("use either cursor or a non-zero offset, not both"@))
        } else {
            match decoded {
                Err(_) => Err(ErrorView::Other("cursor is not valid CodeFacts page data"@)),
                Ok(c) => if c.version != PAGE_CURSOR_VERSION || c.scope@ != scope {
                    Err(ErrorView::Other("cursor does not belong to this search or outline request"@))
                } else if c.generation != generation {
                    Ok(PageOffset::Stale)
                } else {
                    Ok(PageOffset::Current(c.offset))
                },
            }
        },
    }
}

/// Decides where a page starts; `cursor` is the decoded cursor argument, if
/// one was given (`Err` when it could not be decoded).
pub fn page_offset(
    cursor: Option<Result<PageCursor, ()>>,
    offset: usize,
    generation: i64,
    scope: &str,
) -> (r: Result<PageOffset, CodeFactsError>)
    ensures
        match r {
            Ok(p) => page_offset_spec(cursor, offset, generation, scope@) == Ok::<PageOffset, ErrorView>(p),
            Err(e) => page_offset_spec(cursor, offset, generation, scope@) == Err::<PageOffset, ErrorView>(
                error_view(e),
            ),
        },
{
    let decoded = match cursor {
        None => {
            return Ok(PageOffset::Current(offset));
        },
        Some(d) => d,
    };
    if offset != 0 {
        return Err(
            CodeFactsError::Other("use either cursor or a non-zero offset, not both".to_owned()),
        );
    }
    let c = match decoded {
        Err(_) => {
            return Err(CodeFactsError::Other("cursor is not valid CodeFacts page data".to_owned()));
        },
        Ok(c) => c,
    };
    let same_scope = chars_equal(chars_of(c.scope.as_str()).as_slice(), chars_of(scope).as_slice());
    if c.version != PAGE_CURSOR_VERSION || !same_scope {
        return Err(
            CodeFactsError::Other(
                "cursor does not belong to this search or outline request".to_owned(),
            ),
        );
    }
    if c.generation != generation {
        return Ok(PageOffset::Stale);
    }
    Ok(PageOffset::Current(c.offset))
}

// ---------------------------------------------------------------------------
// Repository identity and Markdown sections
// ---------------------------------------------------------------------------
/// The user-facing form of a canonical root: on Windows without the
/// verbatim prefix that canonicalization adds (`\\?\UNC\server` becomes
/// `\\server`, `\\?\D:\repo` becomes `D:\repo`), elsewhere unchanged.
pub open spec fn repository_root_identity_spec(root: Seq<char>, windows: bool) -> Seq<char> {
    let unc = seq!['\\', '\\', '?', '\\', 'U', 'N', 'C', '\\'];
    let verbatim = seq!['\\', '\\', '?', '\\'];
    if !windows {
        root
    } else if starts_with(root, unc) {
        seq!['\\', '\\'] + root.skip(8)
    } else if starts_with(root, verbatim) {
        root.skip(4)
    } else {
        root
    }
}

/// See [`repository_root_identity_spec`].
pub fn repository_root_identity(root: &str, windows: bool) -> (r: String)
    ensures
        r@ == repository_root_identity_spec(root@, windows),
{
    if !windows {
        return root.to_owned();
    }
    let chars = chars_of(root);
    let unc = vec!['\\', '\\', '?', '\\', 'U', 'N', 'C', '\\'];
    let verbatim = vec!['\\', '\\', '?', '\\'];
    assert(unc@ =~= seq!['\\', '\\', '?', '\\', 'U', 'N', 'C', '\\']);
    assert(verbatim@ =~= seq!['\\', '\\', '?', '\\']);
    if starts_with_chars(chars.as_slice(), unc.as_slice()) {
        let mut r = vec!['\\', '\\'];
        append_chars(&mut r, copy_range(chars.as_slice(), 8, chars.len()).as_slice());
        assert(r@ =~= seq!['\\', '\\'] + root@.skip(8));
        string_from_chars(r.as_slice())
    } else if starts_with_chars(chars.as_slice(), verbatim.as_slice()) {
        let r = copy_range(chars.as_slice(), 4, chars.len());
        assert(r@ =~= root@.skip(4));
        string_from_chars(r.as_slice())
    } else {
        root.to_owned()
    }
}

/// How many leading characters of `s` fit in `budget` UTF-8 bytes (the
/// prefix that `str::floor_char_boundary` keeps).
pub open spec fn chars_within(s: Seq<char>, budget: int) -> nat
    decreases s.len(),
{
    if s.len() == 0 || utf8_width(s[0]) > budget {
        0
    } else {
        1 + chars_within(s.drop_first(), budget - utf8_width(s[0]))
    }
}

/// The section of a Markdown heading as `expand` reports it: its content up
/// to the response limit, cut at a character boundary, with its line span;
/// null for any other symbol.
pub open spec fn markdown_section_view(n: NodeView) -> JsonView {
    if n.language != Language::Markdown || n.kind != NodeKind::Heading {
        JsonView::Null
    } else {
        let content = match n.body {
            Some(b) => b,
            None => Seq::empty(),
        };
        let k = chars_within(content, MAX_MARKDOWN_SECTION_RESPONSE_LEN as int);
        object_of(
            seq![
                ("content"@, JsonView::String(content.take(k as int))),
                ("end_line"@, JsonView::Number(NumberView::PosInt(n.end_line as u64))),
                ("start_line"@, JsonView::Number(NumberView::PosInt(n.start_line as u64))),
                ("truncated"@, JsonView::Bool(k < content.len())),
            ],
        )
    }
}

/// Number of leading characters of `s` within `budget` bytes.
fn count_within(s: &[char], budget: usize) -> (r: usize)
    ensures
        r == chars_within(s@, budget as int),
        r <= s@.len(),
{
    let mut i: usize = 0;
    let mut left: usize = budget;
    assert(s@.skip(0) =~= s@);
    while i < s.len() && char_utf8_width(s[i]) <= left
        invariant
            i <= s@.len(),
            left <= budget,
            chars_within(s@, budget as int) == i + chars_within(s@.skip(i as int), left as int),
        decreases s@.len() - i,
    {
        let w = char_utf8_width(s[i]);
        assert(s@.skip(i as int).drop_first() =~= s@.skip(i + 1));
        assert(s@.skip(i as int)[0] == s@[i as int]);
        left = left - w;
        i = i + 1;
    }
    proof {
        if i < s@.len() {
            assert(s@.skip(i as int)[0] == s@[i as int]);
        }
    }
    i
}

/// See [`markdown_section_view`].
pub fn markdown_section(node: &CodeNode) -> (r: JsonValue)
    ensures
        r@ == markdown_section_view(node@),
{
    let markdown = match node.language {
        Language::Markdown => match node.kind {
            NodeKind::Heading => true,
            _ => false,
        },
        _ => false,
    };
    if !markdown {
        return JsonValue::Null;
    }
    let content = match &node.body {
        Some(b) => chars_of(b.as_str()),
        None => Vec::new(),
    };
    let k = count_within(content.as_slice(), MAX_MARKDOWN_SECTION_RESPONSE_LEN);
    let kept = copy_range(content.as_slice(), 0, k);
    assert(kept@ =~= content@.take(k as int));
    object4(
        "content",
        JsonValue::String(string_from_chars(kept.as_slice())),
        "end_line",
        JsonValue::Number(JsonNumber::PosInt(node.end_line as u64)),
        "start_line",
        JsonValue::Number(JsonNumber::PosInt(node.start_line as u64)),
        "truncated",
        JsonValue::Bool(k < content.len()),
    )
}

/// Decimal representation of a `u128`.
fn decimal_u128(n: u128) -> (r: Vec<char>)
    ensures
        r@ == decimal(n as nat),
    decreases n,
{
    if n < 10 {
        let mut v: Vec<char> = Vec::new();
        v.push(digit(n as u64));
        assert(v@ =~= seq![digit_char(n as nat)]);
        v
    } else {
        let mut v = decimal_u128(n / 10);
        v.push(digit((n % 10) as u64));
        v
    }
}

impl IndexResult {
    /// One line describing an indexing run (`Display`).
    pub fn summary(&self) -> (r: String)
        ensures
            r@ == "Indexed "@ + decimal(self.files_indexed as nat) + " files ("@ + decimal(self.files_skipped as nat)
                + " skipped): "@ + decimal(self.nodes_created as nat) + " nodes, "@ + decimal(
                self.edges_created as nat,
            ) + " edges in "@ + decimal(self.duration_ms as nat) + "ms"@,
    {
        let mut v = chars_of("Indexed ");
        append_chars(&mut v, decimal_chars(self.files_indexed as u64).as_slice());
        append_chars(&mut v, chars_of(" files (").as_slice());
        append_chars(&mut v, decimal_chars(self.files_skipped as u64).as_slice());
        append_chars(&mut v, chars_of(" skipped): ").as_slice());
        append_chars(&mut v, decimal_chars(self.nodes_created as u64).as_slice());
        append_chars(&mut v, chars_of(" nodes, ").as_slice());
        append_chars(&mut v, decimal_chars(self.edges_created as u64).as_slice());
        append_chars(&mut v, chars_of(" edges in ").as_slice());
        append_chars(&mut v, decimal_u128(self.duration_ms).as_slice());
        append_chars(&mut v, chars_of("ms").as_slice());
        string_from_chars(v.as_slice())
    }
}


// ---------------------------------------------------------------------------
// One served repository
// ---------------------------------------------------------------------------
/// One repository the server serves: its canonical root, the external state
/// file that holds its facts, and its optional LSP enrichment. The caller
/// canonicalizes the root and prepares the state file's directory.
pub struct CodeFacts {
    root: String,
    database_path: String,
    lsp: LspManager,
}

impl CodeFacts {
    pub closed spec fn root_spec(&self) -> Seq<char> {
        self.root@
    }

    pub closed spec fn database_path_spec(&self) -> Seq<char> {
        self.database_path@
    }

    pub closed spec fn lsp_mode_spec(&self) -> LspMode {
        self.lsp.spec_mode()
    }

    /// A project with LSP enrichment in its default mode.
    pub fn open(root: String, database_path: String) -> (r: Self)
        ensures
            r.root_spec() == root@,
            r.database_path_spec() == database_path@,
            r.lsp_mode_spec() == LspMode::Auto,
    {
        Self::open_with_lsp(root, database_path, LspMode::Auto)
    }

    /// A project whose optional LSP enrichment runs in `lsp_mode`; no
    /// language server is probed yet.
    pub fn open_with_lsp(root: String, database_path: String, lsp_mode: LspMode) -> (r: Self)
        ensures
            r.root_spec() == root@,
            r.database_path_spec() == database_path@,
            r.lsp_mode_spec() == lsp_mode,
    {
        CodeFacts { root, database_path, lsp: LspManager::new(lsp_mode) }
    }

    /// The canonical repository root.
    pub fn root(&self) -> (r: &str)
        ensures
            r@ == self.root_spec(),
    {
        self.root.as_str()
    }

    /// The external state file.
    pub fn database_path(&self) -> (r: &str)
        ensures
            r@ == self.database_path_spec(),
    {
        self.database_path.as_str()
    }

    /// The project's LSP manager.
    pub fn lsp(&self) -> (r: &LspManager)
        ensures
            r.spec_mode() == self.lsp_mode_spec(),
    {
        &self.lsp
    }
}

} // verus!
