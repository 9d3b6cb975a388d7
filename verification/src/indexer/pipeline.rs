//! The pure steps of an indexing pass: content hashes, the symbol index by
//! name, target binding of static relationships, and the bounded candidate
//! sets of calls whose target is not unique. Reading files, parsing and
//! persisting facts happen around these steps.
use vstd::prelude::*;
use vstd::utf8::encode_utf8;

use crate::digest::{hex_encode, hex_lower, sha256, sha256_digest};
use crate::indexer::endpoints::{sort_nodes, sort_nodes_by_location, NodeIndex};
use crate::text::{append_chars, chars_equal, chars_of, decimal, decimal_chars, string_from_chars};
use crate::types::{
    edge_kind_name, edge_metadata, edges_view, metadata_set, nodes_view, opt_view, pairs_view,
    set_metadata, CodeEdge, CodeNode,
    EdgeKind, EdgeView, NodeKind, NodeView,
};

verus! {

/// Calls with more same-named candidates keep only this many, in candidate
/// order, and say that they were cut.
pub const MAX_AMBIGUOUS_CALL_TARGETS: usize = 32;

/// Lowercase hexadecimal SHA-256 of a text's UTF-8 bytes: the content hash
/// that decides whether a file changed since it was indexed.
pub fn sha256_hex(content: &str) -> (r: String)
    ensures
        r@ == hex_lower(sha256(encode_utf8(content@))),
{
    let digest = sha256_digest(content.as_bytes());
    hex_encode(digest.as_slice())
}

// ---------------------------------------------------------------------------
// Symbol index
// ---------------------------------------------------------------------------
/// The nodes named `name`, in order.
pub open spec fn nodes_named(nodes: Seq<NodeView>, name: Seq<char>) -> Seq<NodeView>
    decreases nodes.len(),
{
    if nodes.len() == 0 {
        Seq::empty()
    } else {
        let rest = nodes_named(nodes.drop_last(), name);
        if nodes.last().name == name {
            rest.push(nodes.last())
        } else {
            rest
        }
    }
}

/// What an index built from `nodes` records under `name`.
pub open spec fn index_of(nodes: Seq<NodeView>, name: Seq<char>) -> Option<Seq<NodeView>> {
    let named = nodes_named(nodes, name);
    if named.len() == 0 {
        None
    } else {
        Some(named)
    }
}

/// The symbol index: every node under its name, in input order.
pub fn build_node_index(nodes: &[CodeNode]) -> (r: NodeIndex)
    ensures
        forall|name: Seq<char>| #[trigger] r.lookup(name) == index_of(nodes_view(nodes@), name),
{
    let mut index = NodeIndex::new();
    let mut i: usize = 0;
    while i < nodes.len()
        invariant
            i <= nodes@.len(),
            forall|name: Seq<char>| #[trigger]
                index.lookup(name) == index_of(nodes_view(nodes@.take(i as int)), name),
        decreases nodes@.len() - i,
    {
        let node = nodes[i].copy();
        let ghost before = nodes_view(nodes@.take(i as int));
        let ghost n = node@;
        index.push_node(node);
        proof {
            assert(nodes_view(nodes@.take(i + 1)) =~= before.push(n));
            assert(nodes_view(nodes@.take(i + 1)).drop_last() =~= before);
            assert forall|name: Seq<char>| #[trigger]
                index.lookup(name) == index_of(nodes_view(nodes@.take(i + 1)), name) by {
                assert(nodes_view(nodes@.take(i + 1)).last() == n);
            }
        }
        i = i + 1;
    }
    proof {
        assert(nodes@.take(nodes@.len() as int) =~= nodes@);
    }
    index
}

// ---------------------------------------------------------------------------
// Static target binding
// ---------------------------------------------------------------------------
/// Position of the first candidate at or after `i` in file `f`, or -1.
pub open spec fn first_in_file(c: Seq<NodeView>, f: Seq<char>, i: int) -> int
    decreases c.len() - i,
{
    if i < 0 || i >= c.len() {
        -1
    } else if c[i].file_path == f {
        i
    } else {
        first_in_file(c, f, i + 1)
    }
}

/// Position of the first exported candidate at or after `i`, or -1.
pub open spec fn first_exported(c: Seq<NodeView>, i: int) -> int
    decreases c.len() - i,
{
    if i < 0 || i >= c.len() {
        -1
    } else if c[i].exported == Some(true) {
        i
    } else {
        first_exported(c, i + 1)
    }
}

/// Position of the first candidate at or after `i` outside file `f`, or -1.
pub open spec fn first_elsewhere(c: Seq<NodeView>, f: Seq<char>, i: int) -> int
    decreases c.len() - i,
{
    if i < 0 || i >= c.len() {
        -1
    } else if c[i].file_path != f {
        i
    } else {
        first_elsewhere(c, f, i + 1)
    }
}

/// The target that a static reference to `name` from `source_file` binds
/// to, given the symbols indexed under that name: one in the same file, else
/// the only one, else an exported one, else one in another file, else the
/// first; `unresolved:name` when there is none.
pub open spec fn resolve_target_spec(
    name: Seq<char>,
    source_file: Seq<char>,
    found: Option<Seq<NodeView>>,
) -> Seq<char> {
    match found {
        None => "unresolved:"@ + name,
        Some(c) => {
            let same = first_in_file(c, source_file, 0);
            let exported = first_exported(c, 0);
            let elsewhere = first_elsewhere(c, source_file, 0);
            if same >= 0 {
                c[same].id
            } else if c.len() == 1 {
                c[0].id
            } else if exported >= 0 {
                c[exported].id
            } else if elsewhere >= 0 {
                c[elsewhere].id
            } else if c.len() > 0 {
                c[0].id
            } else {
                "unresolved:"@ + name
            }
        },
    }
}

proof fn lemma_first_bounds(c: Seq<NodeView>, f: Seq<char>, i: int)
    requires
        0 <= i,
    ensures
        first_in_file(c, f, i) == -1 || i <= first_in_file(c, f, i) < c.len(),
        first_exported(c, i) == -1 || i <= first_exported(c, i) < c.len(),
        first_elsewhere(c, f, i) == -1 || i <= first_elsewhere(c, f, i) < c.len(),
    decreases c.len() - i,
{
    if i < c.len() {
        lemma_first_bounds(c, f, i + 1);
    }
}

/// `unresolved:name`.
fn unresolved_id(name: &str) -> (r: String)
    ensures
        r@ == "unresolved:"@ + name@,
{
    let mut v = chars_of("unresolved:");
    append_chars(&mut v, chars_of(name).as_slice());
    string_from_chars(v.as_slice())
}

/// The id that a static reference binds to (see [`resolve_target_spec`]).
pub fn resolve_target_id(name: &str, source_file: &str, node_index: &NodeIndex) -> (r: String)
    ensures
        r@ == resolve_target_spec(name@, source_file@, node_index.lookup(name@)),
{
    let candidates = match node_index.get(name) {
        None => return unresolved_id(name),
        Some(c) => c,
    };
    let ghost c = nodes_view(candidates@);
    let file = chars_of(source_file);
    proof {
        lemma_first_bounds(c, source_file@, 0);
    }
    let mut same: usize = 0;
    while same < candidates.len() && !chars_equal(
        chars_of(candidates[same].file_path.as_str()).as_slice(),
        file.as_slice(),
    )
        invariant
            same <= candidates@.len(),
            c == nodes_view(candidates@),
            file@ == source_file@,
            first_in_file(c, source_file@, 0) == first_in_file(c, source_file@, same as int),
        decreases candidates@.len() - same,
    {
        same = same + 1;
    }
    if same < candidates.len() {
        return candidates[same].id.clone();
    }
    if candidates.len() == 1 {
        return candidates[0].id.clone();
    }
    let mut exported: usize = 0;
    while exported < candidates.len() && candidates[exported].exported != Some(true)
        invariant
            exported <= candidates@.len(),
            c == nodes_view(candidates@),
            first_exported(c, 0) == first_exported(c, exported as int),
        decreases candidates@.len() - exported,
    {
        exported = exported + 1;
    }
    if exported < candidates.len() {
        return candidates[exported].id.clone();
    }
    let mut elsewhere: usize = 0;
    while elsewhere < candidates.len() && chars_equal(
        chars_of(candidates[elsewhere].file_path.as_str()).as_slice(),
        file.as_slice(),
    )
        invariant
            elsewhere <= candidates@.len(),
            c == nodes_view(candidates@),
            file@ == source_file@,
            first_elsewhere(c, source_file@, 0) == first_elsewhere(c, source_file@, elsewhere as int),
        decreases candidates@.len() - elsewhere,
    {
        elsewhere = elsewhere + 1;
    }
    if elsewhere < candidates.len() {
        return candidates[elsewhere].id.clone();
    }
    if candidates.len() > 0 {
        return candidates[0].id.clone();
    }
    unresolved_id(name)
}

// ---------------------------------------------------------------------------
// Candidate sets
// ---------------------------------------------------------------------------
/// Whether an edge records an endpoint's handler candidate.
pub open spec fn endpoint_candidate(e: EdgeView) -> bool {
    edge_metadata(e, "relation"@) == Some("endpoint_handler_candidate"@)
}

/// Whether an edge records an endpoint's handler candidate.
pub fn is_endpoint_candidate(edge: &CodeEdge) -> (r: bool)
    ensures
        r == endpoint_candidate(edge@),
{
    match edge.metadata_value("relation") {
        Some(v) => chars_equal(chars_of(v.as_str()).as_slice(), chars_of("endpoint_handler_candidate").as_slice()),
        None => false,
    }
}

/// The key that groups the stored target edges of one source occurrence:
/// source, kind, file, line and target name, separated by NUL.
pub open spec fn group_key(e: EdgeView, target_name: Seq<char>) -> Seq<char> {
    e.source + seq!['\u{0}'] + edge_kind_name(e.kind) + seq!['\u{0}'] + e.file_path + seq!['\u{0}']
        + decimal(e.line as nat) + seq!['\u{0}'] + target_name
}

/// The occurrence key of an edge (see [`group_key`]).
pub fn candidate_group_key(edge: &CodeEdge, target_name: &str) -> (r: String)
    ensures
        r@ == group_key(edge@, target_name@),
{
    let nul = ['\u{0}'];
    let mut v = chars_of(edge.source.as_str());
    append_chars(&mut v, &nul);
    append_chars(&mut v, chars_of(edge.kind.as_str()).as_slice());
    append_chars(&mut v, &nul);
    append_chars(&mut v, chars_of(edge.file_path.as_str()).as_slice());
    append_chars(&mut v, &nul);
    append_chars(&mut v, decimal_chars(edge.line as u64).as_slice());
    append_chars(&mut v, &nul);
    append_chars(&mut v, chars_of(target_name).as_slice());
    assert(nul@ =~= seq!['\u{0}']);
    string_from_chars(v.as_slice())
}

/// Whether the call constructs an instance (`new Name(..)`).
pub open spec fn constructor_call(e: EdgeView) -> bool {
    edge_metadata(e, "constructor"@) == Some("true"@)
}

/// Whether a symbol of kind `k` can be the target: a class or struct for a
/// constructor call, else a function or method.
pub open spec fn callable_kind(constructor: bool, k: NodeKind) -> bool {
    if constructor {
        k == NodeKind::Class || k == NodeKind::Struct
    } else {
        k == NodeKind::Function || k == NodeKind::Method
    }
}

/// The candidates of kind that `callable_kind` accepts, in order.
pub open spec fn callable_only(c: Seq<NodeView>, constructor: bool) -> Seq<NodeView>
    decreases c.len(),
{
    if c.len() == 0 {
        Seq::empty()
    } else {
        let rest = callable_only(c.drop_last(), constructor);
        if callable_kind(constructor, c.last().kind) {
            rest.push(c.last())
        } else {
            rest
        }
    }
}

/// The candidates in file `f`, in order.
pub open spec fn in_file(c: Seq<NodeView>, f: Seq<char>) -> Seq<NodeView>
    decreases c.len(),
{
    if c.len() == 0 {
        Seq::empty()
    } else {
        let rest = in_file(c.drop_last(), f);
        if c.last().file_path == f {
            rest.push(c.last())
        } else {
            rest
        }
    }
}

/// The callable symbols that a call edge may target, in candidate order.
pub open spec fn callable_candidates_spec(e: EdgeView, found: Option<Seq<NodeView>>) -> Seq<NodeView> {
    let all = match found {
        Some(c) => c,
        None => Seq::empty(),
    };
    sort_nodes(callable_only(all, constructor_call(e)))
}

/// The callable symbols named `target_name` that a call edge may target,
/// sorted by file, line and id.
pub fn callable_candidates(edge: &CodeEdge, target_name: &str, node_index: &NodeIndex) -> (r: Vec<
    CodeNode,
>)
    ensures
        nodes_view(r@) == callable_candidates_spec(edge@, node_index.lookup(target_name@)),
{
    let constructor = match edge.metadata_value("constructor") {
        Some(v) => chars_equal(chars_of(v.as_str()).as_slice(), chars_of("true").as_slice()),
        None => false,
    };
    let mut kept: Vec<CodeNode> = Vec::new();
    match node_index.get(target_name) {
        None => {},
        Some(c) => {
            let mut i: usize = 0;
            while i < c.len()
                invariant
                    i <= c@.len(),
                    constructor == constructor_call(edge@),
                    nodes_view(kept@) == callable_only(nodes_view(c@).take(i as int), constructor),
                decreases c@.len() - i,
            {
                proof {
                    assert(nodes_view(c@).take(i + 1).drop_last() =~= nodes_view(c@).take(i as int));
                    assert(nodes_view(c@).take(i + 1).last() == c@[i as int]@);
                }
                let k = c[i].kind;
                let accept = if constructor {
                    k == NodeKind::Class || k == NodeKind::Struct
                } else {
                    k == NodeKind::Function || k == NodeKind::Method
                };
                if accept {
                    let ghost before = nodes_view(kept@);
                    let n = c[i].copy();
                    kept.push(n);
                    assert(nodes_view(kept@) =~= before.push(n@));
                }
                i = i + 1;
            }
            assert(nodes_view(c@).take(c@.len() as int) =~= nodes_view(c@));
        },
    }
    proof {
        if node_index.lookup(target_name@) is None {
            assert(nodes_view(kept@) =~= callable_only(Seq::<NodeView>::empty(), constructor));
        }
    }
    sort_nodes_by_location(kept)
}

/// The targets of one call occurrence and why they are a set: the
/// candidates, the uncertainty label (none for a static fact) and how many
/// candidates there were.
pub struct CandidateSet {
    pub targets: Vec<CodeNode>,
    pub resolution: Option<String>,
    pub candidate_count: usize,
}

pub struct CandidateSetView {
    pub targets: Seq<NodeView>,
    pub resolution: Option<Seq<char>>,
    pub candidate_count: nat,
}

impl View for CandidateSet {
    type V = CandidateSetView;

    open spec fn view(&self) -> CandidateSetView {
        CandidateSetView {
            targets: nodes_view(self.targets@),
            resolution: opt_view(self.resolution),
            candidate_count: self.candidate_count as nat,
        }
    }
}

/// The candidate set of a call: a member call with several candidates keeps
/// them all (`polymorphic`); a unique candidate in the caller's file, or a
/// unique candidate overall, is a static fact; otherwise the first candidate
/// stands for the rest (`ambiguous_name`).
pub open spec fn call_candidates_spec(e: EdgeView, found: Option<Seq<NodeView>>) -> CandidateSetView {
    let c = callable_candidates_spec(e, found);
    let member = edge_metadata(e, "call_form"@) == Some("member"@);
    let same = in_file(c, e.file_path);
    if member && c.len() > 1 {
        CandidateSetView { targets: c, resolution: Some("polymorphic"@), candidate_count: c.len() }
    } else if same.len() == 1 {
        CandidateSetView { targets: same, resolution: None, candidate_count: 1 }
    } else if c.len() <= 1 {
        CandidateSetView { targets: c, resolution: None, candidate_count: c.len() }
    } else {
        CandidateSetView {
            targets: c.take(1),
            resolution: Some("ambiguous_name"@),
            candidate_count: c.len(),
        }
    }
}

/// Copies the first `n` nodes.
fn take_nodes(v: &Vec<CodeNode>, n: usize) -> (r: Vec<CodeNode>)
    requires
        n <= v@.len(),
    ensures
        nodes_view(r@) == nodes_view(v@).take(n as int),
{
    let mut r: Vec<CodeNode> = Vec::new();
    let mut i: usize = 0;
    while i < n
        invariant
            i <= n <= v@.len(),
            nodes_view(r@) == nodes_view(v@).take(i as int),
        decreases n - i,
    {
        let ghost before = nodes_view(r@);
        let x = v[i].copy();
        r.push(x);
        assert(nodes_view(r@) =~= before.push(x@));
        assert(nodes_view(v@).take(i + 1) =~= nodes_view(v@).take(i as int).push(v@[i as int]@));
        i = i + 1;
    }
    r
}

/// The candidate set of one call occurrence (see [`call_candidates_spec`]).
pub fn call_candidates(edge: &CodeEdge, target_name: &str, node_index: &NodeIndex) -> (r:
    CandidateSet)
    ensures
        r@ == call_candidates_spec(edge@, node_index.lookup(target_name@)),
{
    let candidates = callable_candidates(edge, target_name, node_index);
    let ghost c = nodes_view(candidates@);
    let member = match edge.metadata_value("call_form") {
        Some(v) => chars_equal(chars_of(v.as_str()).as_slice(), chars_of("member").as_slice()),
        None => false,
    };
    if member && candidates.len() > 1 {
        let count = candidates.len();
        return CandidateSet {
            targets: candidates,
            resolution: Some("polymorphic".to_owned()),
            candidate_count: count,
        };
    }
    let file = chars_of(edge.file_path.as_str());
    let mut same_file: Vec<CodeNode> = Vec::new();
    let mut i: usize = 0;
    while i < candidates.len()
        invariant
            i <= candidates@.len(),
            c == nodes_view(candidates@),
            file@ == edge.file_path@,
            nodes_view(same_file@) == in_file(c.take(i as int), edge@.file_path),
        decreases candidates@.len() - i,
    {
        proof {
            assert(c.take(i + 1).drop_last() =~= c.take(i as int));
            assert(c.take(i + 1).last() == candidates@[i as int]@);
        }
        if chars_equal(chars_of(candidates[i].file_path.as_str()).as_slice(), file.as_slice()) {
            let ghost before = nodes_view(same_file@);
            let n = candidates[i].copy();
            same_file.push(n);
            assert(nodes_view(same_file@) =~= before.push(n@));
        }
        i = i + 1;
    }
    assert(c.take(c.len() as int) =~= c);
    if same_file.len() == 1 {
        return CandidateSet { targets: same_file, resolution: None, candidate_count: 1 };
    }
    if candidates.len() <= 1 {
        let count = candidates.len();
        return CandidateSet { targets: candidates, resolution: None, candidate_count: count };
    }
    let count = candidates.len();
    CandidateSet {
        targets: take_nodes(&candidates, 1),
        resolution: Some("ambiguous_name".to_owned()),
        candidate_count: count,
    }
}

// ---------------------------------------------------------------------------
// Candidate edges
// ---------------------------------------------------------------------------
/// Metadata that labels a candidate edge: heuristic confidence, why it is a
/// candidate, how many candidates there were, and whether they were cut.
pub open spec fn labelled(m: Seq<(Seq<char>, Seq<char>)>, resolution: Seq<char>, count: nat) -> Seq<
    (Seq<char>, Seq<char>),
> {
    let m1 = metadata_set(m, "confidence"@, "heuristic"@);
    let m2 = metadata_set(m1, "resolution"@, resolution);
    let m3 = metadata_set(m2, "candidate_count"@, decimal(count));
    if count > MAX_AMBIGUOUS_CALL_TARGETS {
        metadata_set(m3, "candidates_truncated"@, "true"@)
    } else {
        m3
    }
}

/// The occurrence `t` retargeted to one candidate, labelled when the
/// candidate set has a resolution.
pub open spec fn candidate_edge(
    t: EdgeView,
    target: NodeView,
    resolution: Option<Seq<char>>,
    count: nat,
) -> EdgeView {
    EdgeView {
        source: t.source,
        target: target.id,
        kind: t.kind,
        file_path: t.file_path,
        line: t.line,
        target_name: t.target_name,
        metadata: match resolution {
            None => t.metadata,
            Some(r) => Some(
                labelled(
                    match t.metadata {
                        Some(m) => m,
                        None => Seq::empty(),
                    },
                    r,
                    count,
                ),
            ),
        },
    }
}

/// One retargeted occurrence per target, in order.
pub open spec fn candidate_edges(
    t: EdgeView,
    targets: Seq<NodeView>,
    resolution: Option<Seq<char>>,
    count: nat,
) -> Seq<EdgeView>
    decreases targets.len(),
{
    if targets.len() == 0 {
        Seq::empty()
    } else {
        candidate_edges(t, targets.drop_last(), resolution, count).push(
            candidate_edge(t, targets.last(), resolution, count),
        )
    }
}

/// The stored occurrences of a candidate set: at most
/// `MAX_AMBIGUOUS_CALL_TARGETS` of its targets.
pub open spec fn materialized(t: EdgeView, cs: CandidateSetView) -> Seq<EdgeView> {
    let n = if cs.targets.len() > MAX_AMBIGUOUS_CALL_TARGETS {
        MAX_AMBIGUOUS_CALL_TARGETS as int
    } else {
        cs.targets.len() as int
    };
    candidate_edges(t, cs.targets.take(n), cs.resolution, cs.candidate_count)
}

/// Materializes a bounded candidate set as relationship occurrences, each
/// keeping the uncertainty label.
pub fn materialize_candidate_edges(template: &CodeEdge, candidates: CandidateSet) -> (r: Vec<CodeEdge>)
    requires
        candidates.candidate_count <= u64::MAX,
    ensures
        edges_view(r@) == materialized(template@, candidates@),
{
    let ghost cs = candidates@;
    let n = if candidates.targets.len() > MAX_AMBIGUOUS_CALL_TARGETS {
        MAX_AMBIGUOUS_CALL_TARGETS
    } else {
        candidates.targets.len()
    };
    let ghost targets = cs.targets.take(n as int);
    let mut out: Vec<CodeEdge> = Vec::new();
    let mut i: usize = 0;
    while i < n
        invariant
            i <= n <= candidates.targets@.len(),
            cs == candidates@,
            targets == cs.targets.take(n as int),
            candidates.candidate_count <= u64::MAX,
            edges_view(out@) == candidate_edges(
                template@,
                targets.take(i as int),
                cs.resolution,
                cs.candidate_count,
            ),
        decreases n - i,
    {
        let mut e = template.clone_edge();
        e.target = candidates.targets[i].id.clone();
        match &candidates.resolution {
            None => {},
            Some(resolution) => {
                let mut m = match e.metadata {
                    Some(m) => m,
                    None => Vec::new(),
                };
                assert(pairs_view(m@) == match template@.metadata {
                    Some(tm) => tm,
                    None => Seq::<(Seq<char>, Seq<char>)>::empty(),
                });
                set_metadata(&mut m, "confidence".to_owned(), "heuristic".to_owned());
                set_metadata(&mut m, "resolution".to_owned(), resolution.clone());
                let count = string_from_chars(decimal_chars(candidates.candidate_count as u64).as_slice());
                set_metadata(&mut m, "candidate_count".to_owned(), count);
                if candidates.candidate_count > MAX_AMBIGUOUS_CALL_TARGETS {
                    set_metadata(&mut m, "candidates_truncated".to_owned(), "true".to_owned());
                }
                e.metadata = Some(m);
            },
        }
        proof {
            assert(targets.take(i + 1).drop_last() =~= targets.take(i as int));
            assert(targets.take(i + 1).last() == candidates.targets@[i as int]@);
        }
        let ghost before = edges_view(out@);
        out.push(e);
        assert(edges_view(out@) =~= before.push(e@));
        i = i + 1;
    }
    assert(targets.take(n as int) =~= targets);
    out
}

/// What one extracted edge becomes once calls are bound against the full
/// symbol index: a call with a labelled candidate set becomes its candidate
/// occurrences; every other edge stays as it is.
pub open spec fn initial_edges_of(e: EdgeView, index: NodeIndex) -> Seq<EdgeView> {
    if e.kind != EdgeKind::Calls {
        seq![e]
    } else {
        match e.target_name {
            None => seq![e],
            Some(name) => {
                let cs = call_candidates_spec(e, index.lookup(name));
                if cs.resolution is None || cs.targets.len() == 0 {
                    seq![e]
                } else {
                    materialized(e, cs)
                }
            },
        }
    }
}

/// [`initial_edges_of`] over a list of edges, in order.
pub open spec fn initial_edges(edges: Seq<EdgeView>, index: NodeIndex) -> Seq<EdgeView>
    decreases edges.len(),
{
    if edges.len() == 0 {
        Seq::empty()
    } else {
        initial_edges(edges.drop_last(), index) + initial_edges_of(edges.last(), index)
    }
}

/// Binds the calls of freshly parsed files against the complete in-memory
/// symbol index, expanding polymorphic and ambiguous calls into labelled
/// candidate occurrences.
pub fn resolve_initial_call_candidates(edges: Vec<CodeEdge>, node_index: &NodeIndex) -> (r: Vec<
    CodeEdge,
>)
    ensures
        edges_view(r@) == initial_edges(edges_view(edges@), *node_index),
{
    let ghost all = edges_view(edges@);
    let mut resolved: Vec<CodeEdge> = Vec::new();
    let mut i: usize = 0;
    while i < edges.len()
        invariant
            i <= edges@.len(),
            all == edges_view(edges@),
            edges_view(resolved@) == initial_edges(all.take(i as int), *node_index),
        decreases edges@.len() - i,
    {
        let edge = &edges[i];
        proof {
            assert(all.take(i + 1).drop_last() =~= all.take(i as int));
            assert(all.take(i + 1).last() == edge@);
        }
        let ghost before = edges_view(resolved@);
        let mut keep = true;
        if edge.kind == EdgeKind::Calls {
            match &edge.target_name {
                None => {},
                Some(target_name) => {
                    let candidates = call_candidates(edge, target_name.as_str(), node_index);
                    if candidates.resolution.is_some() && candidates.targets.len() > 0 {
                        keep = false;
                        let ghost cs = candidates@;
                        let more = materialize_candidate_edges(edge, candidates);
                        let mut j: usize = 0;
                        while j < more.len()
                            invariant
                                j <= more@.len(),
                                edges_view(resolved@) == before + edges_view(more@).take(j as int),
                            decreases more@.len() - j,
                        {
                            let x = more[j].clone_edge();
                            let ghost b2 = edges_view(resolved@);
                            resolved.push(x);
                            assert(edges_view(resolved@) =~= b2.push(x@));
                            assert(edges_view(more@).take(j + 1) =~= edges_view(more@).take(j as int).push(
                                more@[j as int]@,
                            ));
                            j = j + 1;
                        }
                        assert(edges_view(more@).take(more@.len() as int) =~= edges_view(more@));
                        assert(initial_edges_of(edge@, *node_index) == materialized(edge@, cs));
                    }
                },
            }
        }
        if keep {
            let x = edge.clone_edge();
            resolved.push(x);
            assert(edges_view(resolved@) =~= before + seq![x@]);
        }
        i = i + 1;
    }
    assert(all.take(all.len() as int) =~= all);
    resolved
}

// ---------------------------------------------------------------------------
// Rebinding stored relationships
// ---------------------------------------------------------------------------
/// Edges whose stored targets form a candidate set per occurrence: endpoint
/// handler candidates and calls.
pub open spec fn grouped_kind(e: EdgeView) -> bool {
    endpoint_candidate(e) || e.kind == EdgeKind::Calls
}

/// An edge pointed at another target.
pub open spec fn retarget(e: EdgeView, target: Seq<char>) -> EdgeView {
    EdgeView {
        source: e.source,
        target,
        kind: e.kind,
        file_path: e.file_path,
        line: e.line,
        target_name: e.target_name,
        metadata: e.metadata,
    }
}

/// The single-target edges whose binding changed: the stored edges to
/// delete and their rebound replacements, in order.
pub open spec fn single_rebinds(edges: Seq<EdgeView>, index: NodeIndex) -> (Seq<EdgeView>, Seq<
    EdgeView,
>)
    decreases edges.len(),
{
    if edges.len() == 0 {
        (Seq::empty(), Seq::empty())
    } else {
        let (d, ins) = single_rebinds(edges.drop_last(), index);
        let e = edges.last();
        match e.target_name {
            None => (d, ins),
            Some(name) => if grouped_kind(e) {
                (d, ins)
            } else {
                let t = resolve_target_spec(name, e.file_path, index.lookup(name));
                if t != e.target {
                    (d.push(e), ins.push(retarget(e, t)))
                } else {
                    (d, ins)
                }
            },
        }
    }
}

/// Position of the group with key `k` at or after `i`, or -1.
pub open spec fn group_position(g: Seq<(Seq<char>, Seq<EdgeView>)>, k: Seq<char>, i: int) -> int
    decreases g.len() - i,
{
    if i < 0 || i >= g.len() {
        -1
    } else if g[i].0 == k {
        i
    } else {
        group_position(g, k, i + 1)
    }
}

/// The candidate-set edges grouped by occurrence, groups in order of first
/// appearance, each group in input order.
pub open spec fn occurrence_groups(edges: Seq<EdgeView>) -> Seq<(Seq<char>, Seq<EdgeView>)>
    decreases edges.len(),
{
    if edges.len() == 0 {
        Seq::empty()
    } else {
        let g = occurrence_groups(edges.drop_last());
        let e = edges.last();
        match e.target_name {
            None => g,
            Some(name) => if !grouped_kind(e) {
                g
            } else {
                let k = group_key(e, name);
                let p = group_position(g, k, 0);
                if p >= 0 {
                    g.update(p, (k, g[p].1.push(e)))
                } else {
                    g.push((k, seq![e]))
                }
            },
        }
    }
}

/// The replacement occurrences of one group, rebuilt from its first edge:
/// an endpoint's callable handler candidates or a call's candidate set;
/// `unresolved:name` when nothing matches.
pub open spec fn group_replacement(group: Seq<EdgeView>, index: NodeIndex) -> Seq<EdgeView> {
    let template = group[0];
    let name = template.target_name.unwrap();
    let cs = if endpoint_candidate(template) {
        let targets = callable_candidates_spec(template, index.lookup(name));
        CandidateSetView {
            targets,
            resolution: Some("endpoint_handler_candidate"@),
            candidate_count: targets.len(),
        }
    } else {
        call_candidates_spec(template, index.lookup(name))
    };
    if cs.targets.len() == 0 {
        seq![retarget(template, "unresolved:"@ + name)]
    } else {
        materialized(template, cs)
    }
}

/// All groups' edges, group after group.
pub open spec fn groups_deleted(g: Seq<(Seq<char>, Seq<EdgeView>)>) -> Seq<EdgeView>
    decreases g.len(),
{
    if g.len() == 0 {
        Seq::empty()
    } else {
        groups_deleted(g.drop_last()) + g.last().1
    }
}

/// All groups' replacements, group after group.
pub open spec fn groups_inserted(g: Seq<(Seq<char>, Seq<EdgeView>)>, index: NodeIndex) -> Seq<EdgeView>
    decreases g.len(),
{
    if g.len() == 0 {
        Seq::empty()
    } else {
        groups_inserted(g.drop_last(), index) + group_replacement(g.last().1, index)
    }
}

/// Which stored occurrences to replace, and by what, after the definitions
/// named by their targets were added, moved or removed.
pub struct RebindPlan {
    pub deleted: Vec<CodeEdge>,
    pub inserted: Vec<CodeEdge>,
}

/// The rebinding of stored edges against the current symbol index: each
/// single-target edge whose binding changed is rebound, and every candidate
/// occurrence is rebuilt from its first stored edge.
pub open spec fn rebind_plan_spec(edges: Seq<EdgeView>, index: NodeIndex) -> (Seq<EdgeView>, Seq<
    EdgeView,
>) {
    let (d, ins) = single_rebinds(edges, index);
    let g = occurrence_groups(edges);
    (d + groups_deleted(g), ins + groups_inserted(g, index))
}

/// The groups held as parallel key and member lists.
pub open spec fn groups_view(keys: Seq<String>, members: Seq<Vec<CodeEdge>>) -> Seq<
    (Seq<char>, Seq<EdgeView>),
> {
    Seq::new(keys.len(), |i: int| (keys[i]@, edges_view(members[i]@)))
}

/// Every group has a first edge, and that edge names its target.
pub open spec fn groups_wf(g: Seq<(Seq<char>, Seq<EdgeView>)>) -> bool {
    forall|i: int| 0 <= i < g.len() ==> #[trigger] g[i].1.len() > 0 && g[i].1[0].target_name is Some
}

proof fn lemma_occurrence_groups_wf(edges: Seq<EdgeView>)
    ensures
        groups_wf(occurrence_groups(edges)),
    decreases edges.len(),
{
    if edges.len() > 0 {
        lemma_occurrence_groups_wf(edges.drop_last());
        let g = occurrence_groups(edges.drop_last());
        let e = edges.last();
        match e.target_name {
            None => {},
            Some(name) => if grouped_kind(e) {
                let k = group_key(e, name);
                let p = group_position(g, k, 0);
                lemma_group_position_bounds(g, k, 0);
                if p >= 0 {
                    let ng = g.update(p, (k, g[p].1.push(e)));
                    assert forall|i: int| 0 <= i < ng.len() implies #[trigger] ng[i].1.len() > 0
                        && ng[i].1[0].target_name is Some by {
                        if i == p {
                            assert(ng[i].1[0] == g[p].1[0]);
                        } else {
                            assert(ng[i] == g[i]);
                        }
                    }
                } else {
                    let ng = g.push((k, seq![e]));
                    assert forall|i: int| 0 <= i < ng.len() implies #[trigger] ng[i].1.len() > 0
                        && ng[i].1[0].target_name is Some by {
                        if i < g.len() {
                            assert(ng[i] == g[i]);
                        }
                    }
                }
            },
        }
    }
}

proof fn lemma_group_position_bounds(g: Seq<(Seq<char>, Seq<EdgeView>)>, k: Seq<char>, i: int)
    requires
        0 <= i,
    ensures
        group_position(g, k, i) == -1 || (i <= group_position(g, k, i) < g.len() && g[group_position(
            g,
            k,
            i,
        )].0 == k),
    decreases g.len() - i,
{
    if i < g.len() {
        lemma_group_position_bounds(g, k, i + 1);
    }
}

/// Appends copies of all of `more` to `out`.
fn extend_edges(out: &mut Vec<CodeEdge>, more: &Vec<CodeEdge>)
    ensures
        edges_view(final(out)@) == edges_view(old(out)@) + edges_view(more@),
{
    let ghost start = edges_view(out@);
    let mut j: usize = 0;
    while j < more.len()
        invariant
            j <= more@.len(),
            edges_view(out@) == start + edges_view(more@).take(j as int),
        decreases more@.len() - j,
    {
        let x = more[j].clone_edge();
        let ghost b = edges_view(out@);
        out.push(x);
        assert(edges_view(out@) =~= b.push(x@));
        assert(edges_view(more@).take(j + 1) =~= edges_view(more@).take(j as int).push(more@[j as int]@));
        j = j + 1;
    }
    assert(edges_view(more@).take(more@.len() as int) =~= edges_view(more@));
}

/// The replacement occurrences of one non-empty group.
fn group_replacement_edges(group: &Vec<CodeEdge>, node_index: &NodeIndex) -> (r: Vec<CodeEdge>)
    requires
        group@.len() > 0,
        group@[0].target_name is Some,
    ensures
        edges_view(r@) == group_replacement(edges_view(group@), *node_index),
{
    let template = &group[0];
    assert(edges_view(group@)[0] == template@);
    let name = match &template.target_name {
        Some(n) => n,
        None => {
            assert(false);
            return Vec::new();
        },
    };
    let endpoint = is_endpoint_candidate(template);
    let candidates = if endpoint {
        let targets = callable_candidates(template, name.as_str(), node_index);
        let count = targets.len();
        CandidateSet {
            targets,
            resolution: Some("endpoint_handler_candidate".to_owned()),
            candidate_count: count,
        }
    } else {
        call_candidates(template, name.as_str(), node_index)
    };
    if candidates.targets.len() == 0 {
        let mut unresolved = template.clone_edge();
        unresolved.target = unresolved_id(name.as_str());
        let mut out: Vec<CodeEdge> = Vec::new();
        out.push(unresolved);
        assert(edges_view(out@) =~= seq![unresolved@]);
        return out;
    }
    materialize_candidate_edges(template, candidates)
}

/// Plans the rebinding of stored relationships whose target names changed
/// definitions: single-target edges are bound again, and each candidate
/// occurrence is rebuilt. `rebound` in the refresh report is the number of
/// deleted occurrences.
pub fn rebind_static_targets(edges: &[CodeEdge], node_index: &NodeIndex) -> (r: RebindPlan)
    ensures
        (edges_view(r.deleted@), edges_view(r.inserted@)) == rebind_plan_spec(
            edges_view(edges@),
            *node_index,
        ),
{
    let ghost all = edges_view(edges@);
    let mut deleted: Vec<CodeEdge> = Vec::new();
    let mut inserted: Vec<CodeEdge> = Vec::new();
    let mut keys: Vec<String> = Vec::new();
    let mut members: Vec<Vec<CodeEdge>> = Vec::new();
    let mut i: usize = 0;
    while i < edges.len()
        invariant
            i <= edges@.len(),
            all == edges_view(edges@),
            keys@.len() == members@.len(),
            (edges_view(deleted@), edges_view(inserted@)) == single_rebinds(all.take(i as int), *node_index),
            groups_view(keys@, members@) == occurrence_groups(all.take(i as int)),
        decreases edges@.len() - i,
    {
        let edge = &edges[i];
        proof {
            assert(all.take(i + 1).drop_last() =~= all.take(i as int));
            assert(all.take(i + 1).last() == edge@);
        }
        match &edge.target_name {
            None => {},
            Some(target_name) => {
                if is_endpoint_candidate(edge) || edge.kind == EdgeKind::Calls {
                    let key = candidate_group_key(edge, target_name.as_str());
                    let ghost g = groups_view(keys@, members@);
                    let kc = chars_of(key.as_str());
                    let mut p: usize = 0;
                    while p < keys.len() && !chars_equal(chars_of(keys[p].as_str()).as_slice(), kc.as_slice())
                        invariant
                            p <= keys@.len() == members@.len(),
                            kc@ == key@,
                            g == groups_view(keys@, members@),
                            group_position(g, key@, 0) == group_position(g, key@, p as int),
                        decreases keys@.len() - p,
                    {
                        assert(g[p as int].0 == keys@[p as int]@);
                        p = p + 1;
                    }
                    proof {
                        lemma_group_position_bounds(g, key@, p as int);
                        if p < keys@.len() {
                            assert(g[p as int].0 == keys@[p as int]@);
                        }
                    }
                    if p < keys.len() {
                        let mut group: Vec<CodeEdge> = Vec::new();
                        members.set_and_swap(p, &mut group);
                        let ghost gv = edges_view(group@);
                        assert(gv == g[p as int].1);
                        group.push(edge.clone_edge());
                        assert(edges_view(group@) =~= gv.push(edge@));
                        members.set_and_swap(p, &mut group);
                        assert(groups_view(keys@, members@) =~= g.update(
                            p as int,
                            (key@, g[p as int].1.push(edge@)),
                        ));
                    } else {
                        let mut group: Vec<CodeEdge> = Vec::new();
                        group.push(edge.clone_edge());
                        assert(edges_view(group@) =~= seq![edge@]);
                        keys.push(key);
                        members.push(group);
                        assert(groups_view(keys@, members@) =~= g.push((key@, seq![edge@])));
                    }
                } else {
                    let target_id = resolve_target_id(target_name.as_str(), edge.file_path.as_str(), node_index);
                    if !chars_equal(chars_of(target_id.as_str()).as_slice(), chars_of(edge.target.as_str()).as_slice()) {
                        let ghost d0 = edges_view(deleted@);
                        let ghost i0 = edges_view(inserted@);
                        let old_edge = edge.clone_edge();
                        deleted.push(old_edge);
                        let mut rebound = edge.clone_edge();
                        rebound.target = target_id;
                        inserted.push(rebound);
                        assert(edges_view(deleted@) =~= d0.push(edge@));
                        assert(edges_view(inserted@) =~= i0.push(retarget(edge@, target_id@)));
                    }
                }
            },
        }
        i = i + 1;
    }
    assert(all.take(all.len() as int) =~= all);
    let ghost groups = occurrence_groups(all);
    proof {
        lemma_occurrence_groups_wf(all);
    }
    let ghost d0 = edges_view(deleted@);
    let ghost i0 = edges_view(inserted@);
    let mut gi: usize = 0;
    while gi < members.len()
        invariant
            gi <= members@.len() == keys@.len(),
            groups == groups_view(keys@, members@),
            groups_wf(groups),
            edges_view(deleted@) == d0 + groups_deleted(groups.take(gi as int)),
            edges_view(inserted@) == i0 + groups_inserted(groups.take(gi as int), *node_index),
        decreases members@.len() - gi,
    {
        let group = &members[gi];
        proof {
            assert(groups.take(gi + 1).drop_last() =~= groups.take(gi as int));
            assert(groups.take(gi + 1).last() == groups[gi as int]);
            assert(groups[gi as int].1 == edges_view(group@));
            assert(groups[gi as int].1.len() > 0 && groups[gi as int].1[0].target_name is Some);
            assert(edges_view(group@)[0] == group@[0]@);
        }
        extend_edges(&mut deleted, group);
        let more = group_replacement_edges(group, node_index);
        extend_edges(&mut inserted, &more);
        gi = gi + 1;
    }
    assert(groups.take(groups.len() as int) =~= groups);
    RebindPlan { deleted, inserted }
}

} // verus!
