//! Deterministic endpoint discovery for common static route declarations.
//!
//! Endpoint facts are deliberately conservative candidates: a route literal is
//! required, the call must have a known routing receiver, and handler
//! candidates resolve only to indexed functions or methods. The syntax tree
//! is walked outside the library; this module decides which call or
//! annotation is a route, builds the endpoint facts and binds handlers.
use vstd::prelude::*;

use vstd::utf8::{decode_utf8, encode_utf8, valid_utf8};

use crate::lsp::string_from_utf8;
use crate::order::{insert_pos, lemma_insert_pos_bounds, lemma_stable_sort_step, stable_sort};
use crate::text::{
    after_last_char, append_chars, ascii_lowercase, ascii_lowercase_chars, chars_equal, chars_lt, chars_of,
    copy_range, ends_with, ends_with_chars, find_char, find_char_from, find_either, find_either_from, find_seq,
    find_seq_from, last_char_before, seq_lt, starts_with, starts_with_chars, str_eq, string_from_chars, trim,
    trim_chars, trim_start, trim_start_chars,
};
use crate::types::{
    copy_strings, make_node_id, node_id, nodes_view, opt_view, strings_view, CodeEdge, CodeNode, EdgeKind, EdgeView, Language,
    NodeKind, NodeView,
};

verus! {

/// An endpoint fact with the identifiers that its route names as handlers.
#[derive(Debug, Clone)]
pub struct EndpointBinding {
    pub endpoint: CodeNode,
    pub handler_names: Vec<String>,
}

// ---------------------------------------------------------------------------
// Symbols by name
// ---------------------------------------------------------------------------
/// Symbols grouped by name, in insertion order within a name.
#[derive(Debug)]
pub struct NodeIndex {
    entries: Vec<(String, Vec<CodeNode>)>,
}

/// The symbols recorded under `name` (its first entry).
pub open spec fn index_lookup(entries: Seq<(String, Vec<CodeNode>)>, name: Seq<char>) -> Option<
    Seq<NodeView>,
>
    decreases entries.len(),
{
    if entries.len() == 0 {
        None
    } else if entries[0].0@ == name {
        Some(nodes_view(entries[0].1@))
    } else {
        index_lookup(entries.drop_first(), name)
    }
}

/// Position of the first entry for `name`, or -1.
pub open spec fn index_position(entries: Seq<(String, Vec<CodeNode>)>, name: Seq<char>, i: int) -> int
    decreases entries.len() - i,
{
    if i < 0 || i >= entries.len() {
        -1
    } else if entries[i].0@ == name {
        i
    } else {
        index_position(entries, name, i + 1)
    }
}

proof fn lemma_index_position(entries: Seq<(String, Vec<CodeNode>)>, name: Seq<char>, i: int)
    requires
        0 <= i <= entries.len(),
    ensures
        index_lookup(entries.skip(i), name) == {
            let p = index_position(entries, name, i);
            if p < 0 {
                None
            } else {
                Some(nodes_view(entries[p].1@))
            }
        },
        index_position(entries, name, i) == -1 || (i <= index_position(entries, name, i) < entries.len()
            && entries[index_position(entries, name, i)].0@ == name),
        forall|k: int|
            i <= k < entries.len() && (index_position(entries, name, i) == -1 || k < index_position(
                entries,
                name,
                i,
            )) ==> #[trigger] entries[k].0@ != name,
    decreases entries.len() - i,
{
    if i < entries.len() {
        assert(entries.skip(i).drop_first() =~= entries.skip(i + 1));
        assert(entries.skip(i)[0] == entries[i]);
        if entries[i].0@ != name {
            lemma_index_position(entries, name, i + 1);
        }
    } else {
        assert(entries.skip(i) =~= Seq::<(String, Vec<CodeNode>)>::empty());
    }
}

proof fn lemma_lookup_update(
    entries: Seq<(String, Vec<CodeNode>)>,
    p: int,
    e: (String, Vec<CodeNode>),
    name: Seq<char>,
)
    requires
        0 <= p < entries.len(),
        e.0@ == entries[p].0@,
        index_position(entries, entries[p].0@, 0) == p,
    ensures
        index_lookup(entries.update(p, e), name) == if name == e.0@ {
            Some(nodes_view(e.1@))
        } else {
            index_lookup(entries, name)
        },
{
    let u = entries.update(p, e);
    lemma_index_position(entries, name, 0);
    lemma_index_position(u, name, 0);
    lemma_index_position(entries, entries[p].0@, 0);
    assert(entries.skip(0) =~= entries);
    assert(u.skip(0) =~= u);
    lemma_positions_agree(entries, u, p, e, name, 0);
}

proof fn lemma_positions_agree(
    entries: Seq<(String, Vec<CodeNode>)>,
    u: Seq<(String, Vec<CodeNode>)>,
    p: int,
    e: (String, Vec<CodeNode>),
    name: Seq<char>,
    i: int,
)
    requires
        0 <= p < entries.len(),
        0 <= i <= entries.len(),
        u == entries.update(p, e),
        e.0@ == entries[p].0@,
    ensures
        index_position(u, name, i) == index_position(entries, name, i),
    decreases entries.len() - i,
{
    if i < entries.len() {
        assert(u[i].0@ == entries[i].0@);
        lemma_positions_agree(entries, u, p, e, name, i + 1);
    }
}

proof fn lemma_lookup_push(entries: Seq<(String, Vec<CodeNode>)>, e: (String, Vec<CodeNode>), name: Seq<char>)
    ensures
        index_lookup(entries.push(e), name) == match index_lookup(entries, name) {
            Some(v) => Some(v),
            None => if name == e.0@ {
                Some(nodes_view(e.1@))
            } else {
                None
            },
        },
    decreases entries.len(),
{
    if entries.len() > 0 {
        assert(entries.push(e).drop_first() =~= entries.drop_first().push(e));
        assert(entries.push(e)[0] == entries[0]);
        lemma_lookup_push(entries.drop_first(), e, name);
    } else {
        let t = entries.push(e);
        assert(t.drop_first() =~= Seq::<(String, Vec<CodeNode>)>::empty());
        assert(index_lookup(t.drop_first(), name) is None);
        assert(t[0] == e);
    }
}

impl NodeIndex {
    /// The symbols recorded under `name`.
    pub closed spec fn lookup(&self, name: Seq<char>) -> Option<Seq<NodeView>> {
        index_lookup(self.entries@, name)
    }

    /// An index without symbols.
    pub fn new() -> (r: Self)
        ensures
            forall|name: Seq<char>| #[trigger] r.lookup(name) is None,
    {
        NodeIndex { entries: Vec::new() }
    }

    fn position(&self, name: &str) -> (r: Option<usize>)
        ensures
            match r {
                Some(p) => p as int == index_position(self.entries@, name@, 0) && p < self.entries@.len(),
                None => index_position(self.entries@, name@, 0) == -1,
            },
    {
        let key = chars_of(name);
        let mut i: usize = 0;
        while i < self.entries.len()
            invariant
                i <= self.entries@.len(),
                key@ == name@,
                index_position(self.entries@, name@, 0) == index_position(self.entries@, name@, i as int),
            decreases self.entries@.len() - i,
        {
            if chars_equal(chars_of(self.entries[i].0.as_str()).as_slice(), key.as_slice()) {
                return Some(i);
            }
            i = i + 1;
        }
        None
    }

    /// The symbols recorded under `name`.
    pub fn get(&self, name: &str) -> (r: Option<&Vec<CodeNode>>)
        ensures
            match r {
                Some(v) => self.lookup(name@) == Some(nodes_view(v@)),
                None => self.lookup(name@) is None,
            },
    {
        proof {
            lemma_index_position(self.entries@, name@, 0);
            assert(self.entries@.skip(0) =~= self.entries@);
        }
        match self.position(name) {
            Some(p) => Some(&self.entries[p].1),
            None => None,
        }
    }

    /// Records `nodes` under `name`, replacing what was recorded before.
    pub fn insert(&mut self, name: String, nodes: Vec<CodeNode>)
        ensures
            final(self).lookup(name@) == Some(nodes_view(nodes@)),
            forall|other: Seq<char>|
                other != name@ ==> #[trigger] final(self).lookup(other) == old(self).lookup(other),
    {
        match self.position(name.as_str()) {
            Some(p) => {
                let ghost before = self.entries@;
                let ghost e = (name, nodes);
                proof {
                    lemma_index_position(before, name@, 0);
                }
                self.entries.set(p, (name, nodes));
                proof {
                    assert forall|other: Seq<char>| #[trigger]
                        index_lookup(self.entries@, other) == if other == e.0@ {
                            Some(nodes_view(e.1@))
                        } else {
                            index_lookup(before, other)
                        } by {
                        lemma_lookup_update(before, p as int, e, other);
                    }
                }
            },
            None => {
                let ghost before = self.entries@;
                let ghost e = (name, nodes);
                proof {
                    lemma_index_position(before, name@, 0);
                    assert(before.skip(0) =~= before);
                }
                self.entries.push((name, nodes));
                proof {
                    assert forall|other: Seq<char>| #[trigger]
                        index_lookup(self.entries@, other) == match index_lookup(before, other) {
                            Some(v) => Some(v),
                            None => if other == e.0@ {
                                Some(nodes_view(e.1@))
                            } else {
                                None
                            },
                        } by {
                        lemma_lookup_push(before, e, other);
                    }
                }
            },
        }
    }

    /// Appends one node to the symbols recorded under its name.
    pub fn push_node(&mut self, node: CodeNode)
        ensures
            final(self).lookup(node.name@) == Some(
                match old(self).lookup(node.name@) {
                    Some(v) => v.push(node@),
                    None => seq![node@],
                },
            ),
            forall|other: Seq<char>|
                other != node.name@ ==> #[trigger] final(self).lookup(other) == old(self).lookup(other),
    {
        let name = node.name.clone();
        let mut nodes: Vec<CodeNode> = match self.get(name.as_str()) {
            Some(v) => clone_nodes(v),
            None => Vec::new(),
        };
        let ghost before = nodes_view(nodes@);
        nodes.push(node);
        assert(nodes_view(nodes@) =~= before.push(node@));
        self.insert(name, nodes);
    }
}

/// Copies a list of nodes.
pub fn clone_nodes(v: &Vec<CodeNode>) -> (r: Vec<CodeNode>)
    ensures
        nodes_view(r@) == nodes_view(v@),
{
    let mut r: Vec<CodeNode> = Vec::new();
    let mut i: usize = 0;
    while i < v.len()
        invariant
            i <= v@.len(),
            nodes_view(r@) == nodes_view(v@).take(i as int),
        decreases v@.len() - i,
    {
        let ghost before = nodes_view(r@);
        let n = v[i].copy();
        r.push(n);
        assert(nodes_view(r@) =~= before.push(n@));
        assert(nodes_view(v@).take(i + 1) =~= nodes_view(v@).take(i as int).push(v@[i as int]@));
        i = i + 1;
    }
    assert(nodes_view(v@).take(v@.len() as int) =~= nodes_view(v@));
    r
}

// ---------------------------------------------------------------------------
// Deterministic candidate order
// ---------------------------------------------------------------------------
/// Order of candidate symbols: by file path, then start line, then id.
pub open spec fn node_key_lt(a: NodeView, b: NodeView) -> bool {
    seq_lt(a.file_path, b.file_path) || (a.file_path == b.file_path && (a.start_line < b.start_line
        || (a.start_line == b.start_line && seq_lt(a.id, b.id))))
}

/// The candidate order as a relation.
pub open spec fn node_order() -> spec_fn(NodeView, NodeView) -> bool {
    |a: NodeView, b: NodeView| node_key_lt(a, b)
}

/// `s` sorted stably by the candidate order (`slice::sort_by`).
pub open spec fn sort_nodes(s: Seq<NodeView>) -> Seq<NodeView> {
    stable_sort(s, node_order())
}

/// Whether two nodes are in candidate order (`a` strictly before `b`).
fn node_before(a: &CodeNode, b: &CodeNode) -> (r: bool)
    ensures
        r == node_key_lt(a@, b@),
{
    let af = chars_of(a.file_path.as_str());
    let bf = chars_of(b.file_path.as_str());
    if chars_lt(af.as_slice(), bf.as_slice()) {
        return true;
    }
    if !chars_equal(af.as_slice(), bf.as_slice()) {
        return false;
    }
    if a.start_line < b.start_line {
        return true;
    }
    if a.start_line != b.start_line {
        return false;
    }
    chars_lt(chars_of(a.id.as_str()).as_slice(), chars_of(b.id.as_str()).as_slice())
}

/// Sorts nodes stably by file path, start line and id.
pub fn sort_nodes_by_location(v: Vec<CodeNode>) -> (r: Vec<CodeNode>)
    ensures
        nodes_view(r@) == sort_nodes(nodes_view(v@)),
{
    let mut sorted: Vec<CodeNode> = Vec::new();
    let mut i: usize = 0;
    let mut rest = v;
    let ghost all = nodes_view(rest@);
    // Take the elements in order, inserting each into the sorted prefix.
    while i < rest.len()
        invariant
            i <= rest@.len(),
            all == nodes_view(rest@),
            nodes_view(sorted@) == sort_nodes(all.take(i as int)),
        decreases rest@.len() - i,
    {
        let x = rest[i].copy();
        let ghost s = nodes_view(sorted@);
        let mut p: usize = 0;
        while p < sorted.len() && !node_before(&x, &sorted[p])
            invariant
                p <= sorted@.len(),
                s == nodes_view(sorted@),
                insert_pos(s, x@, node_order(), 0) == insert_pos(s, x@, node_order(), p as int),
            decreases sorted@.len() - p,
        {
            p = p + 1;
        }
        proof {
            lemma_insert_pos_bounds(s, x@, node_order(), p as int);
            lemma_stable_sort_step(all, node_order(), i as int);
        }
        sorted.insert(p, x);
        assert(nodes_view(sorted@) =~= s.take(p as int) + seq![x@] + s.skip(p as int));
        i = i + 1;
    }
    assert(all.take(all.len() as int) =~= all);
    sorted
}

// ---------------------------------------------------------------------------
// Handler binding
// ---------------------------------------------------------------------------
/// Candidates that a handler name may denote: its functions and methods.
pub open spec fn callable_targets(nodes: Seq<NodeView>) -> Seq<NodeView> {
    sort_nodes(nodes.filter(|n: NodeView| n.kind == NodeKind::Function || n.kind == NodeKind::Method))
}

pub open spec fn endpoint_metadata() -> Seq<(Seq<char>, Seq<char>)> {
    seq![
        ("relation"@, "endpoint_handler_candidate"@),
        ("extractor"@, "endpoint-ast"@),
        ("confidence"@, "heuristic"@),
    ]
}

/// The heuristic `references` edge from an endpoint to a handler candidate.
pub open spec fn handler_edge(endpoint: NodeView, target: NodeView, handler: Seq<char>) -> EdgeView {
    EdgeView {
        source: endpoint.id,
        target: target.id,
        kind: EdgeKind::References,
        file_path: endpoint.file_path,
        line: endpoint.start_line,
        target_name: Some(handler),
        metadata: Some(endpoint_metadata()),
    }
}

/// Edges for the first `j` targets of one handler name, given the edges and
/// the target ids emitted before; each target id is emitted once per endpoint.
pub open spec fn targets_fold(
    endpoint: NodeView,
    handler: Seq<char>,
    targets: Seq<NodeView>,
    j: int,
    edges: Seq<EdgeView>,
    emitted: Set<Seq<char>>,
) -> (Seq<EdgeView>, Set<Seq<char>>)
    decreases j,
{
    if j <= 0 {
        (edges, emitted)
    } else {
        let (e, em) = targets_fold(endpoint, handler, targets, j - 1, edges, emitted);
        let t = targets[j - 1];
        if em.contains(t.id) {
            (e, em)
        } else {
            (e.push(handler_edge(endpoint, t, handler)), em.insert(t.id))
        }
    }
}

/// Edges of the first `k` handler names of one endpoint.
pub open spec fn handlers_fold(
    endpoint: NodeView,
    handlers: Seq<Seq<char>>,
    lookup: spec_fn(Seq<char>) -> Option<Seq<NodeView>>,
    k: int,
) -> (Seq<EdgeView>, Set<Seq<char>>)
    decreases k,
{
    if k <= 0 {
        (Seq::empty(), Set::empty())
    } else {
        let (e, em) = handlers_fold(endpoint, handlers, lookup, k - 1);
        match lookup(handlers[k - 1]) {
            None => (e, em),
            Some(nodes) => {
                let ts = callable_targets(nodes);
                targets_fold(endpoint, handlers[k - 1], ts, ts.len() as int, e, em)
            },
        }
    }
}

pub open spec fn binding_handlers(b: EndpointBinding) -> Seq<Seq<char>> {
    strings_view(b.handler_names@)
}

/// Handler edges of every binding, in binding order.
pub open spec fn endpoint_edges_spec(
    bindings: Seq<EndpointBinding>,
    lookup: spec_fn(Seq<char>) -> Option<Seq<NodeView>>,
) -> Seq<EdgeView>
    decreases bindings.len(),
{
    if bindings.len() == 0 {
        Seq::empty()
    } else {
        let b = bindings.last();
        let hs = binding_handlers(b);
        endpoint_edges_spec(bindings.drop_last(), lookup) + handlers_fold(
            b.endpoint@,
            hs,
            lookup,
            hs.len() as int,
        ).0
    }
}

/// The functions and methods among `nodes`, in candidate order.
fn callable_nodes(nodes: &Vec<CodeNode>) -> (r: Vec<CodeNode>)
    ensures
        nodes_view(r@) == callable_targets(nodes_view(nodes@)),
{
    let ghost pred = |n: NodeView| n.kind == NodeKind::Function || n.kind == NodeKind::Method;
    let mut kept: Vec<CodeNode> = Vec::new();
    let mut i: usize = 0;
    assert(nodes_view(nodes@).take(0).filter(pred) =~= Seq::<NodeView>::empty()) by {
        reveal(Seq::filter);
    }
    while i < nodes.len()
        invariant
            i <= nodes@.len(),
            pred == (|n: NodeView| n.kind == NodeKind::Function || n.kind == NodeKind::Method),
            nodes_view(kept@) == nodes_view(nodes@).take(i as int).filter(pred),
        decreases nodes@.len() - i,
    {
        let ghost before = nodes_view(kept@);
        proof {
            reveal(Seq::filter);
            let t = nodes_view(nodes@).take(i + 1);
            assert(t.drop_last() =~= nodes_view(nodes@).take(i as int));
            assert(t.last() == nodes@[i as int]@);
        }
        let n = &nodes[i];
        if n.kind == NodeKind::Function || n.kind == NodeKind::Method {
            let c = n.copy();
            kept.push(c);
            assert(nodes_view(kept@) =~= before.push(c@));
        }
        i = i + 1;
    }
    assert(nodes_view(nodes@).take(nodes@.len() as int) =~= nodes_view(nodes@));
    sort_nodes_by_location(kept)
}

/// The heuristic handler edge of one endpoint and target.
fn make_handler_edge(endpoint: &CodeNode, target: &CodeNode, handler: &String) -> (r: CodeEdge)
    ensures
        r@ == handler_edge(endpoint@, target@, handler@),
{
    let metadata = vec![
        ("relation".to_owned(), "endpoint_handler_candidate".to_owned()),
        ("extractor".to_owned(), "endpoint-ast".to_owned()),
        ("confidence".to_owned(), "heuristic".to_owned()),
    ];
    let r = CodeEdge {
        source: endpoint.id.clone(),
        target: target.id.clone(),
        kind: EdgeKind::References,
        file_path: endpoint.file_path.clone(),
        line: endpoint.start_line,
        target_name: Some(handler.clone()),
        metadata: Some(metadata),
    };
    assert(crate::types::pairs_view(metadata@) =~= endpoint_metadata());
    r
}

/// Whether `ids` holds `id`.
fn contains_id(ids: &Vec<String>, id: &String) -> (r: bool)
    ensures
        r == strings_view(ids@).contains(id@),
{
    let key = chars_of(id.as_str());
    let mut i: usize = 0;
    while i < ids.len()
        invariant
            i <= ids@.len(),
            key@ == id@,
            forall|j: int| 0 <= j < i ==> #[trigger] ids@[j]@ != id@,
        decreases ids@.len() - i,
    {
        if chars_equal(chars_of(ids[i].as_str()).as_slice(), key.as_slice()) {
            assert(strings_view(ids@)[i as int] == id@);
            return true;
        }
        i = i + 1;
    }
    proof {
        if strings_view(ids@).contains(id@) {
            let j = choose|j: int| 0 <= j < ids@.len() && #[trigger] strings_view(ids@)[j] == id@;
            assert(ids@[j]@ == id@);
        }
    }
    false
}

pub open spec fn ids_set(ids: Seq<String>) -> Set<Seq<char>> {
    strings_view(ids).to_set()
}

/// Heuristic `references` edges from each endpoint to the indexed functions
/// and methods its handler names denote, each target once per endpoint.
pub fn extract_endpoint_edges(bindings: &[EndpointBinding], node_index: &NodeIndex) -> (r: Vec<
    CodeEdge,
>)
    ensures
        crate::types::edges_view(r@) == endpoint_edges_spec(
            bindings@,
            |name: Seq<char>| node_index.lookup(name),
        ),
{
    let ghost lookup = |name: Seq<char>| node_index.lookup(name);
    let mut edges: Vec<CodeEdge> = Vec::new();
    let mut b: usize = 0;
    while b < bindings.len()
        invariant
            b <= bindings@.len(),
            lookup == (|name: Seq<char>| node_index.lookup(name)),
            crate::types::edges_view(edges@) == endpoint_edges_spec(bindings@.take(b as int), lookup),
        decreases bindings@.len() - b,
    {
        let binding = &bindings[b];
        let ghost hs = binding_handlers(*binding);
        let ghost prefix = crate::types::edges_view(edges@);
        let mut emitted: Vec<String> = Vec::new();
        let mut h: usize = 0;
        while h < binding.handler_names.len()
            invariant
                h <= binding.handler_names@.len(),
                hs == binding_handlers(*binding),
                lookup == (|name: Seq<char>| node_index.lookup(name)),
                crate::types::edges_view(edges@) == prefix + handlers_fold(
                    binding.endpoint@,
                    hs,
                    lookup,
                    h as int,
                ).0,
                ids_set(emitted@) == handlers_fold(binding.endpoint@, hs, lookup, h as int).1,
            decreases binding.handler_names@.len() - h,
        {
            let handler_name = &binding.handler_names[h];
            assert(hs[h as int] == handler_name@);
            let ghost before_edges = handlers_fold(binding.endpoint@, hs, lookup, h as int).0;
            let ghost before_set = handlers_fold(binding.endpoint@, hs, lookup, h as int).1;
            match node_index.get(handler_name.as_str()) {
                None => {},
                Some(candidates) => {
                    let targets = callable_nodes(candidates);
                    let ghost ts = nodes_view(targets@);
                    let mut j: usize = 0;
                    while j < targets.len()
                        invariant
                            j <= targets@.len(),
                            ts == nodes_view(targets@),
                            crate::types::edges_view(edges@) == prefix + targets_fold(
                                binding.endpoint@,
                                handler_name@,
                                ts,
                                j as int,
                                before_edges,
                                before_set,
                            ).0,
                            ids_set(emitted@) == targets_fold(
                                binding.endpoint@,
                                handler_name@,
                                ts,
                                j as int,
                                before_edges,
                                before_set,
                            ).1,
                        decreases targets@.len() - j,
                    {
                        let target = &targets[j];
                        assert(ts[j as int] == target@);
                        proof {
                            assert(ids_set(emitted@).contains(target.id@) == strings_view(emitted@).contains(target.id@));
                        }
                        if !contains_id(&emitted, &target.id) {
                            let edge = make_handler_edge(&binding.endpoint, target, handler_name);
                            let ghost old_edges = crate::types::edges_view(edges@);
                            let ghost old_ids = emitted@;
                            edges.push(edge);
                            emitted.push(target.id.clone());
                            proof {
                                assert(crate::types::edges_view(edges@) =~= old_edges.push(edge@));
                                assert(strings_view(emitted@) =~= strings_view(old_ids).push(target.id@));
                                strings_view(old_ids).lemma_push_to_set_commute(
                                    target.id@,
                                );
                            }
                        }
                        j = j + 1;
                    }
                },
            }
            h = h + 1;
        }
        proof {
            assert(bindings@.take(b + 1).drop_last() =~= bindings@.take(b as int));
            assert(bindings@.take(b + 1).last() == *binding);
            assert(binding.handler_names@.len() == hs.len());
        }
        b = b + 1;
    }
    assert(bindings@.take(bindings@.len() as int) =~= bindings@);
    edges
}

// ---------------------------------------------------------------------------
// Route literals and receivers
// ---------------------------------------------------------------------------
/// The quote characters that may delimit a JavaScript route literal.
pub open spec fn is_route_quote(c: char) -> bool {
    c == '\'' || c == '"' || c == '`'
}

/// The body of a quoted route literal: `'..'`, `".."` or a template
/// string, both ends the same quote.
pub open spec fn unquote_spec(t: Seq<char>) -> Option<Seq<char>> {
    if t.len() < 2 || !is_route_quote(t[0]) || t.last() != t[0] {
        None
    } else {
        Some(t.subrange(1, t.len() - 1))
    }
}

/// Position of the quote `q` that closes a literal, scanning from `i`; a
/// quote preceded by an odd run of backslashes is escaped. -1 if none.
pub open spec fn closing_quote(s: Seq<char>, q: char, i: int, escaped: bool) -> int
    decreases s.len() - i,
{
    if i < 0 || i >= s.len() {
        -1
    } else if s[i] == q && !escaped {
        i
    } else {
        closing_quote(s, q, i + 1, s[i] == '\\' && !escaped)
    }
}

/// The body of the first single- or double-quoted literal in `t`.
pub open spec fn first_quoted_spec(t: Seq<char>) -> Option<Seq<char>> {
    let start = find_either_from(t, '\'', '"', 0);
    if start < 0 {
        None
    } else {
        let rem = t.skip(start);
        let close = closing_quote(rem, rem[0], 1, false);
        if close < 0 {
            None
        } else {
            Some(rem.subrange(1, close))
        }
    }
}

/// The receiver names that commonly hold an HTTP router.
pub open spec fn is_router_name(t: Seq<char>) -> bool {
    t == "app"@ || t == "api"@ || t == "router"@ || t == "route"@ || t == "routes"@ || t
        == "server"@ || t == "fastify"@ || t == "hono"@ || ends_with(t, "router"@) || ends_with(
        t,
        "routes"@,
    )
}

/// Whether a call receiver names a router: its last dotted segment,
/// lowercased, is a router name.
pub open spec fn known_receiver_spec(receiver: Seq<char>) -> bool {
    let t = trim(receiver);
    is_router_name(ascii_lowercase(t.skip(last_char_before(t, '.', t.len() as int) + 1)))
}

/// The HTTP verb of a lowercased router method name.
pub open spec fn http_verb_spec(m: Seq<char>) -> Option<Seq<char>> {
    if m == "get"@ {
        Some("GET"@)
    } else if m == "post"@ {
        Some("POST"@)
    } else if m == "put"@ {
        Some("PUT"@)
    } else if m == "patch"@ {
        Some("PATCH"@)
    } else if m == "delete"@ {
        Some("DELETE"@)
    } else if m == "head"@ {
        Some("HEAD"@)
    } else {
        None
    }
}

/// The route path that the first argument of a router call spells: a quoted
/// literal or template string without its quotes, a regular expression
/// literal as written, or a bare path with at least two slashes.
pub open spec fn route_path_spec(kind: Seq<char>, text: Seq<char>) -> Option<Seq<char>> {
    let t = trim(text);
    if kind == "string"@ || kind == "template_string"@ {
        unquote_spec(t)
    } else if find_seq_from(kind, "regex"@, 0) >= 0 {
        Some(t)
    } else if t.len() > 0 && t[0] == '/' && find_char_from(t, '/', 1) >= 0 {
        Some(t)
    } else {
        None
    }
}

/// Strips the quotes from a route literal.
pub fn unquote_route(text: &str) -> (r: Option<String>)
    ensures
        opt_view(r) == unquote_spec(text@),
{
    let t = chars_of(text);
    if t.len() < 2 {
        return None;
    }
    let quote = t[0];
    if !(quote == '\'' || quote == '"' || quote == '`') || t[t.len() - 1] != quote {
        return None;
    }
    Some(string_from_chars(copy_range(t.as_slice(), 1, t.len() - 1).as_slice()))
}

/// The body of the first quoted literal in annotation arguments.
pub fn first_quoted_route(text: &str) -> (r: Option<String>)
    ensures
        opt_view(r) == first_quoted_spec(text@),
{
    let t = chars_of(text);
    let start = match find_either(t.as_slice(), '\'', '"', 0) {
        Some(k) => k,
        None => return None,
    };
    let rem = copy_range(t.as_slice(), start, t.len());
    assert(rem@ =~= t@.skip(start as int));
    let quote = rem[0];
    let mut escaped = false;
    let mut i: usize = 1;
    while i < rem.len()
        invariant
            1 <= i <= rem@.len(),
            quote == rem@[0],
            find_either_from(text@, '\'', '"', 0) == start as int,
            rem@ == text@.skip(start as int),
            closing_quote(rem@, quote, 1, false) == closing_quote(rem@, quote, i as int, escaped),
        decreases rem@.len() - i,
    {
        let c = rem[i];
        if c == quote && !escaped {
            assert(closing_quote(rem@, quote, i as int, escaped) == i as int);
            let body = copy_range(rem.as_slice(), 1, i);
            assert(first_quoted_spec(text@) == Some(body@));
            return Some(string_from_chars(body.as_slice()));
        }
        escaped = c == '\\' && !escaped;
        i = i + 1;
    }
    None
}

/// Whether a call receiver is a known router object (`app`, `router`,
/// `api.routes`, `userRouter`, ...).
pub fn is_known_route_receiver(receiver: &str) -> (r: bool)
    ensures
        r == known_receiver_spec(receiver@),
{
    let t = trim_chars(chars_of(receiver).as_slice());
    let start = after_last_char(t.as_slice(), '.');
    let tail = copy_range(t.as_slice(), start, t.len());
    assert(tail@ =~= t@.skip(start as int));
    let terminal = ascii_lowercase_chars(tail.as_slice());
    let term = terminal.as_slice();
    chars_equal(term, chars_of("app").as_slice()) || chars_equal(term, chars_of("api").as_slice())
        || chars_equal(term, chars_of("router").as_slice()) || chars_equal(
        term,
        chars_of("route").as_slice(),
    ) || chars_equal(term, chars_of("routes").as_slice()) || chars_equal(
        term,
        chars_of("server").as_slice(),
    ) || chars_equal(term, chars_of("fastify").as_slice()) || chars_equal(
        term,
        chars_of("hono").as_slice(),
    ) || ends_with_chars(term, chars_of("router").as_slice()) || ends_with_chars(
        term,
        chars_of("routes").as_slice(),
    )
}

/// The HTTP verb of a lowercased router method name.
fn http_verb(m: &[char]) -> (r: Option<String>)
    ensures
        opt_view(r) == http_verb_spec(m@),
{
    if chars_equal(m, chars_of("get").as_slice()) {
        Some("GET".to_owned())
    } else if chars_equal(m, chars_of("post").as_slice()) {
        Some("POST".to_owned())
    } else if chars_equal(m, chars_of("put").as_slice()) {
        Some("PUT".to_owned())
    } else if chars_equal(m, chars_of("patch").as_slice()) {
        Some("PATCH".to_owned())
    } else if chars_equal(m, chars_of("delete").as_slice()) {
        Some("DELETE".to_owned())
    } else if chars_equal(m, chars_of("head").as_slice()) {
        Some("HEAD".to_owned())
    } else {
        None
    }
}

/// The route path spelled by a router call's first argument, given the
/// argument's syntax kind and text.
pub fn route_path(kind: &str, text: &str) -> (r: Option<String>)
    ensures
        opt_view(r) == route_path_spec(kind@, text@),
{
    let t = trim_chars(chars_of(text).as_slice());
    if str_eq(kind, "string") || str_eq(kind, "template_string") {
        let quoted = string_from_chars(t.as_slice());
        return unquote_route(quoted.as_str());
    }
    let k = chars_of(kind);
    if find_seq(k.as_slice(), chars_of("regex").as_slice(), 0).is_some() {
        return Some(string_from_chars(t.as_slice()));
    }
    if t.len() > 0 && t[0] == '/' && find_char(t.as_slice(), '/', 1).is_some() {
        return Some(string_from_chars(t.as_slice()));
    }
    None
}

// ---------------------------------------------------------------------------
// Syntax facts handed over by the parser
// ---------------------------------------------------------------------------
/// One named node of a parsed syntax tree. A tree is handed over as the list
/// of its named nodes in pre-order (each node before its descendants,
/// children in source order); a node names its text by a byte range of the
/// source and refers to its field children and named children by their
/// positions in that list.
#[derive(Debug, Clone)]
pub struct SyntaxNode {
    pub kind: String,
    pub start_byte: usize,
    pub end_byte: usize,
    /// Zero-based rows and columns, as the parser reports them.
    pub start_row: u32,
    pub start_column: u32,
    pub end_row: u32,
    pub end_column: u32,
    /// The `function` field of a call.
    pub function: Option<usize>,
    /// The `object` field of a member expression.
    pub object: Option<usize>,
    /// The `property` field of a member expression.
    pub property: Option<usize>,
    /// The `arguments` field of a call.
    pub arguments: Option<usize>,
    pub named_children: Vec<usize>,
}

/// Whether the nodes fit the source: byte ranges inside it and rows that a
/// one-based `u32` line number can hold.
pub open spec fn syntax_fits(source: Seq<u8>, nodes: Seq<SyntaxNode>) -> bool {
    forall|i: int|
        0 <= i < nodes.len() ==> {
            &&& #[trigger] nodes[i].start_byte <= nodes[i].end_byte
            &&& nodes[i].end_byte <= source.len()
            &&& nodes[i].start_row < u32::MAX
            &&& nodes[i].end_row < u32::MAX
        }
}

/// The text of a node: its source bytes as UTF-8, or empty when they are
/// not valid UTF-8.
pub open spec fn syntax_text(source: Seq<u8>, n: SyntaxNode) -> Seq<char> {
    let b = source.subrange(n.start_byte as int, n.end_byte as int);
    if valid_utf8(b) {
        decode_utf8(b)
    } else {
        Seq::empty()
    }
}

/// The node at a position, if the position is in the list.
pub open spec fn node_at(nodes: Seq<SyntaxNode>, i: Option<usize>) -> Option<SyntaxNode> {
    match i {
        Some(k) => if k < nodes.len() {
            Some(nodes[k as int])
        } else {
            None
        },
        None => None,
    }
}

/// The positions among `idx` that are in a list of `n` nodes.
pub open spec fn present_indices(n: nat, idx: Seq<usize>) -> Seq<usize>
    decreases idx.len(),
{
    if idx.len() == 0 {
        Seq::empty()
    } else {
        let rest = present_indices(n, idx.drop_last());
        if idx.last() < n {
            rest.push(idx.last())
        } else {
            rest
        }
    }
}

/// The texts of the identifiers among the nodes at `kids`.
pub open spec fn identifier_texts(source: Seq<u8>, nodes: Seq<SyntaxNode>, kids: Seq<usize>) -> Seq<
    Seq<char>,
>
    decreases kids.len(),
{
    if kids.len() == 0 {
        Seq::empty()
    } else {
        let rest = identifier_texts(source, nodes, kids.drop_last());
        let n = nodes[kids.last() as int];
        if n.kind@ == "identifier"@ {
            rest.push(syntax_text(source, n))
        } else {
            rest
        }
    }
}

/// A route declaration found in a source file.
#[derive(Debug)]
pub struct RouteCandidate {
    pub verb: String,
    pub path: String,
    pub handler_names: Vec<String>,
    pub start_line: u32,
    pub end_line: u32,
    pub start_column: u32,
    pub end_column: u32,
}

pub struct RouteView {
    pub verb: Seq<char>,
    pub path: Seq<char>,
    pub handler_names: Seq<Seq<char>>,
    pub start_line: u32,
    pub end_line: u32,
    pub start_column: u32,
    pub end_column: u32,
}

impl View for RouteCandidate {
    type V = RouteView;

    open spec fn view(&self) -> RouteView {
        RouteView {
            verb: self.verb@,
            path: self.path@,
            handler_names: strings_view(self.handler_names@),
            start_line: self.start_line,
            end_line: self.end_line,
            start_column: self.start_column,
            end_column: self.end_column,
        }
    }
}

pub open spec fn routes_view(v: Seq<RouteCandidate>) -> Seq<RouteView> {
    v.map_values(|r: RouteCandidate| r@)
}

pub open spec fn opt_route_view(r: Option<RouteCandidate>) -> Option<RouteView> {
    match r {
        Some(x) => Some(x@),
        None => None,
    }
}

/// A route that spans a node, with one-based lines.
pub open spec fn route_at(
    n: SyntaxNode,
    verb: Seq<char>,
    path: Seq<char>,
    handler_names: Seq<Seq<char>>,
) -> RouteView {
    RouteView {
        verb,
        path,
        handler_names,
        start_line: (n.start_row + 1) as u32,
        end_line: (n.end_row + 1) as u32,
        start_column: n.start_column,
        end_column: n.end_column,
    }
}

/// The route that a JavaScript call declares: `receiver.method(path, ...)`
/// with a router receiver, an HTTP method and a route path first; the
/// identifiers among the later arguments name its handlers.
pub open spec fn javascript_route(source: Seq<u8>, nodes: Seq<SyntaxNode>, call: SyntaxNode) -> Option<
    RouteView,
> {
    match node_at(nodes, call.function) {
        None => None,
        Some(f) => if f.kind@ != "member_expression"@ {
            None
        } else {
            match (node_at(nodes, f.object), node_at(nodes, f.property), node_at(nodes, call.arguments)) {
                (Some(receiver), Some(method), Some(args)) => {
                    let kids = present_indices(nodes.len(), args.named_children@);
                    if !known_receiver_spec(syntax_text(source, receiver)) {
                        None
                    } else {
                        match http_verb_spec(ascii_lowercase(syntax_text(source, method))) {
                            None => None,
                            Some(verb) => if kids.len() == 0 {
                                None
                            } else {
                                let first = nodes[kids[0] as int];
                                match route_path_spec(first.kind@, syntax_text(source, first)) {
                                    None => None,
                                    Some(path) => Some(
                                        route_at(
                                            call,
                                            verb,
                                            path,
                                            identifier_texts(source, nodes, kids.skip(1)),
                                        ),
                                    ),
                                }
                            },
                        }
                    }
                },
                _ => None,
            }
        },
    }
}

/// The Spring mapping annotation that `t` starts with, and its HTTP verb.
pub open spec fn spring_mapping(t: Seq<char>) -> Option<(Seq<char>, Seq<char>)> {
    if starts_with(t, "@GetMapping"@) {
        Some(("@GetMapping"@, "GET"@))
    } else if starts_with(t, "@PostMapping"@) {
        Some(("@PostMapping"@, "POST"@))
    } else if starts_with(t, "@PutMapping"@) {
        Some(("@PutMapping"@, "PUT"@))
    } else if starts_with(t, "@PatchMapping"@) {
        Some(("@PatchMapping"@, "PATCH"@))
    } else if starts_with(t, "@DeleteMapping"@) {
        Some(("@DeleteMapping"@, "DELETE"@))
    } else {
        None
    }
}

/// The route that a Spring mapping annotation declares; it names no
/// handler.
pub open spec fn java_route(text: Seq<char>, n: SyntaxNode) -> Option<RouteView> {
    let t = trim(text);
    match spring_mapping(t) {
        None => None,
        Some((mapping, verb)) => match first_quoted_spec(trim_start(t.skip(mapping.len() as int))) {
            None => None,
            Some(path) => Some(route_at(n, verb, path, Seq::empty())),
        },
    }
}

/// Routes of the first `k` nodes of a JavaScript or TypeScript tree.
pub open spec fn javascript_routes(source: Seq<u8>, nodes: Seq<SyntaxNode>, k: int) -> Seq<RouteView>
    decreases k,
{
    if k <= 0 {
        Seq::empty()
    } else {
        let rest = javascript_routes(source, nodes, k - 1);
        let n = nodes[k - 1];
        if n.kind@ == "call_expression"@ {
            match javascript_route(source, nodes, n) {
                Some(r) => rest.push(r),
                None => rest,
            }
        } else {
            rest
        }
    }
}

/// Routes of the first `k` nodes of a Java tree: its annotations.
pub open spec fn java_routes(source: Seq<u8>, nodes: Seq<SyntaxNode>, k: int) -> Seq<RouteView>
    decreases k,
{
    if k <= 0 {
        Seq::empty()
    } else {
        let rest = java_routes(source, nodes, k - 1);
        let n = nodes[k - 1];
        if find_seq_from(n.kind@, "annotation"@, 0) >= 0 {
            match java_route(syntax_text(source, n), n) {
                Some(r) => rest.push(r),
                None => rest,
            }
        } else {
            rest
        }
    }
}

/// The routes of a file, in tree order.
pub open spec fn language_routes(language: Language, source: Seq<u8>, nodes: Seq<SyntaxNode>) -> Seq<
    RouteView,
> {
    match language {
        Language::TypeScript | Language::Tsx | Language::JavaScript | Language::Jsx => javascript_routes(
            source,
            nodes,
            nodes.len() as int,
        ),
        Language::Java => java_routes(source, nodes, nodes.len() as int),
        _ => Seq::empty(),
    }
}

/// The source text of a node (`""` for bytes that are not UTF-8).
fn node_text(source: &[u8], n: &SyntaxNode) -> (r: String)
    requires
        n.start_byte <= n.end_byte <= source@.len(),
    ensures
        r@ == syntax_text(source@, *n),
{
    let mut bytes: Vec<u8> = Vec::new();
    let mut i = n.start_byte;
    while i < n.end_byte
        invariant
            n.start_byte <= i <= n.end_byte <= source@.len(),
            bytes@ == source@.subrange(n.start_byte as int, i as int),
        decreases n.end_byte - i,
    {
        bytes.push(source[i]);
        i = i + 1;
        assert(bytes@ =~= source@.subrange(n.start_byte as int, i as int));
    }
    match string_from_utf8(bytes) {
        Some(text) => text,
        None => String::new(),
    }
}

/// The node at a position, if the position is in the list.
fn syntax_child(nodes: &[SyntaxNode], i: Option<usize>) -> (r: Option<&SyntaxNode>)
    ensures
        match r {
            Some(n) => node_at(nodes@, i) == Some(*n),
            None => node_at(nodes@, i) is None,
        },
{
    match i {
        Some(k) => if k < nodes.len() {
            Some(&nodes[k])
        } else {
            None
        },
        None => None,
    }
}

/// The route that a JavaScript or TypeScript call declares, if any.
fn route_from_javascript_call(source: &[u8], nodes: &[SyntaxNode], call: &SyntaxNode) -> (r: Option<
    RouteCandidate,
>)
    requires
        syntax_fits(source@, nodes@),
        call.start_row < u32::MAX,
        call.end_row < u32::MAX,
    ensures
        opt_route_view(r) == javascript_route(source@, nodes@, *call),
{
    let function = match syntax_child(nodes, call.function) {
        Some(f) => f,
        None => return None,
    };
    if !str_eq(function.kind.as_str(), "member_expression") {
        return None;
    }
    let (receiver, method, arguments) = match (
        syntax_child(nodes, function.object),
        syntax_child(nodes, function.property),
        syntax_child(nodes, call.arguments),
    ) {
        (Some(receiver), Some(method), Some(arguments)) => (receiver, method, arguments),
        _ => return None,
    };
    proof {
        let i = choose|i: int| 0 <= i < nodes@.len() && nodes@[i] == *receiver;
        assert(nodes@[i].start_byte <= nodes@[i].end_byte);
        let j = choose|j: int| 0 <= j < nodes@.len() && nodes@[j] == *method;
        assert(nodes@[j].start_byte <= nodes@[j].end_byte);
    }
    if !is_known_route_receiver(node_text(source, receiver).as_str()) {
        return None;
    }
    let method_name = ascii_lowercase_chars(chars_of(node_text(source, method).as_str()).as_slice());
    let verb = match http_verb(method_name.as_slice()) {
        Some(v) => v,
        None => return None,
    };
    let mut kids: Vec<usize> = Vec::new();
    let mut i: usize = 0;
    while i < arguments.named_children.len()
        invariant
            i <= arguments.named_children@.len(),
            kids@ == present_indices(nodes@.len(), arguments.named_children@.take(i as int)),
            forall|k: int| 0 <= k < kids@.len() ==> #[trigger] kids@[k] < nodes@.len(),
        decreases arguments.named_children@.len() - i,
    {
        proof {
            assert(arguments.named_children@.take(i + 1).drop_last() =~= arguments.named_children@.take(
                i as int,
            ));
        }
        let k = arguments.named_children[i];
        if k < nodes.len() {
            kids.push(k);
        }
        i = i + 1;
    }
    assert(arguments.named_children@.take(arguments.named_children@.len() as int)
        =~= arguments.named_children@);
    if kids.len() == 0 {
        return None;
    }
    let first = &nodes[kids[0]];
    let path = match route_path(first.kind.as_str(), node_text(source, first).as_str()) {
        Some(p) => p,
        None => return None,
    };
    let mut handler_names: Vec<String> = Vec::new();
    let mut j: usize = 1;
    while j < kids.len()
        invariant
            1 <= j <= kids@.len(),
            syntax_fits(source@, nodes@),
            forall|k: int| 0 <= k < kids@.len() ==> #[trigger] kids@[k] < nodes@.len(),
            strings_view(handler_names@) == identifier_texts(
                source@,
                nodes@,
                kids@.subrange(1, j as int),
            ),
        decreases kids@.len() - j,
    {
        proof {
            assert(kids@.subrange(1, j + 1).drop_last() =~= kids@.subrange(1, j as int));
            assert(kids@.subrange(1, j + 1).last() == kids@[j as int]);
            assert(kids@[j as int] < nodes@.len());
        }
        let n = &nodes[kids[j]];
        if str_eq(n.kind.as_str(), "identifier") {
            let ghost before = strings_view(handler_names@);
            let text = node_text(source, n);
            handler_names.push(text);
            assert(strings_view(handler_names@) =~= before.push(text@));
        }
        j = j + 1;
    }
    assert(kids@.subrange(1, kids@.len() as int) =~= kids@.skip(1));
    Some(
        RouteCandidate {
            verb,
            path,
            handler_names,
            start_line: call.start_row + 1,
            end_line: call.end_row + 1,
            start_column: call.start_column,
            end_column: call.end_column,
        },
    )
}

/// The route that a Spring mapping annotation declares, if any.
fn route_from_java_annotation(source: &[u8], annotation: &SyntaxNode) -> (r: Option<RouteCandidate>)
    requires
        annotation.start_byte <= annotation.end_byte <= source@.len(),
        annotation.start_row < u32::MAX,
        annotation.end_row < u32::MAX,
    ensures
        opt_route_view(r) == java_route(syntax_text(source@, *annotation), *annotation),
{
    let text = node_text(source, annotation);
    let t = trim_chars(chars_of(text.as_str()).as_slice());
    let ts = t.as_slice();
    let (mapping, verb) = if starts_with_chars(ts, chars_of("@GetMapping").as_slice()) {
        (chars_of("@GetMapping"), "GET".to_owned())
    } else if starts_with_chars(ts, chars_of("@PostMapping").as_slice()) {
        (chars_of("@PostMapping"), "POST".to_owned())
    } else if starts_with_chars(ts, chars_of("@PutMapping").as_slice()) {
        (chars_of("@PutMapping"), "PUT".to_owned())
    } else if starts_with_chars(ts, chars_of("@PatchMapping").as_slice()) {
        (chars_of("@PatchMapping"), "PATCH".to_owned())
    } else if starts_with_chars(ts, chars_of("@DeleteMapping").as_slice()) {
        (chars_of("@DeleteMapping"), "DELETE".to_owned())
    } else {
        return None;
    };
    assert(spring_mapping(t@) == Some((mapping@, verb@)));
    let rest = copy_range(ts, mapping.len(), t.len());
    assert(rest@ =~= t@.skip(mapping@.len() as int));
    let arguments = string_from_chars(trim_start_chars(rest.as_slice()).as_slice());
    let path = match first_quoted_route(arguments.as_str()) {
        Some(p) => p,
        None => return None,
    };
    let r = RouteCandidate {
        verb,
        path,
        handler_names: Vec::new(),
        start_line: annotation.start_row + 1,
        end_line: annotation.end_row + 1,
        start_column: annotation.start_column,
        end_column: annotation.end_column,
    };
    assert(strings_view(r.handler_names@) =~= Seq::<Seq<char>>::empty());
    Some(r)
}

/// The routes declared in a file's syntax tree, in tree order.
fn collect_routes(language: Language, source: &[u8], nodes: &[SyntaxNode]) -> (r: Vec<RouteCandidate>)
    requires
        syntax_fits(source@, nodes@),
    ensures
        routes_view(r@) == language_routes(language, source@, nodes@),
{
    let javascript = match language {
        Language::TypeScript | Language::Tsx | Language::JavaScript | Language::Jsx => true,
        _ => false,
    };
    let java = match language {
        Language::Java => true,
        _ => false,
    };
    let mut routes: Vec<RouteCandidate> = Vec::new();
    if !javascript && !java {
        assert(routes_view(routes@) =~= Seq::<RouteView>::empty());
        return routes;
    }
    let mut i: usize = 0;
    while i < nodes.len()
        invariant
            i <= nodes@.len(),
            syntax_fits(source@, nodes@),
            javascript || java,
            javascript ==> routes_view(routes@) == javascript_routes(source@, nodes@, i as int),
            !javascript ==> routes_view(routes@) == java_routes(source@, nodes@, i as int),
        decreases nodes@.len() - i,
    {
        let n = &nodes[i];
        assert(nodes@[i as int].start_byte <= nodes@[i as int].end_byte);
        let ghost before = routes_view(routes@);
        let found = if javascript {
            if str_eq(n.kind.as_str(), "call_expression") {
                route_from_javascript_call(source, nodes, n)
            } else {
                None
            }
        } else {
            if find_seq(chars_of(n.kind.as_str()).as_slice(), chars_of("annotation").as_slice(), 0).is_some() {
                route_from_java_annotation(source, n)
            } else {
                None
            }
        };
        match found {
            Some(route) => {
                let ghost rv = route@;
                routes.push(route);
                assert(routes_view(routes@) =~= before.push(rv));
            },
            None => {},
        }
        i = i + 1;
    }
    routes
}

// ---------------------------------------------------------------------------
// Endpoint facts
// ---------------------------------------------------------------------------
/// Route order: by start line, then verb, then path.
pub open spec fn route_key_lt(a: RouteView, b: RouteView) -> bool {
    a.start_line < b.start_line || (a.start_line == b.start_line && (seq_lt(a.verb, b.verb) || (a.verb
        == b.verb && seq_lt(a.path, b.path))))
}

/// Route order as a relation.
pub open spec fn route_order() -> spec_fn(RouteView, RouteView) -> bool {
    |a: RouteView, b: RouteView| route_key_lt(a, b)
}

/// Two routes declare the same endpoint: same line, verb and path.
pub open spec fn same_route(a: RouteView, b: RouteView) -> bool {
    a.start_line == b.start_line && a.verb == b.verb && a.path == b.path
}

/// No route before position `i` declares the endpoint of route `i`.
pub open spec fn first_of_its_route(s: Seq<RouteView>, i: int) -> bool {
    forall|j: int| 0 <= j < i ==> !same_route(#[trigger] s[j], s[i])
}

/// The name of an endpoint: `VERB path`.
pub open spec fn endpoint_name(r: RouteView) -> Seq<char> {
    r.verb + " "@ + r.path
}

/// The endpoint symbol that a route declares.
pub open spec fn endpoint_node(file_path: Seq<char>, language: Language, r: RouteView) -> NodeView {
    NodeView {
        id: node_id(NodeKind::Endpoint, file_path, endpoint_name(r), r.start_line),
        name: endpoint_name(r),
        qualified_name: None,
        kind: NodeKind::Endpoint,
        file_path,
        start_line: r.start_line,
        end_line: r.end_line,
        start_column: r.start_column,
        end_column: r.end_column,
        language,
        body: None,
        documentation: None,
        exported: None,
    }
}

pub struct BindingView {
    pub endpoint: NodeView,
    pub handler_names: Seq<Seq<char>>,
}

impl View for EndpointBinding {
    type V = BindingView;

    open spec fn view(&self) -> BindingView {
        BindingView { endpoint: self.endpoint@, handler_names: strings_view(self.handler_names@) }
    }
}

pub open spec fn bindings_view(v: Seq<EndpointBinding>) -> Seq<BindingView> {
    v.map_values(|b: EndpointBinding| b@)
}

/// Endpoint bindings of the first `k` sorted routes, one per distinct
/// endpoint (the first route that declares it).
pub open spec fn bindings_upto(file_path: Seq<char>, language: Language, s: Seq<RouteView>, k: int) -> Seq<
    BindingView,
>
    decreases k,
{
    if k <= 0 {
        Seq::empty()
    } else {
        let rest = bindings_upto(file_path, language, s, k - 1);
        if first_of_its_route(s, k - 1) {
            rest.push(
                BindingView {
                    endpoint: endpoint_node(file_path, language, s[k - 1]),
                    handler_names: s[k - 1].handler_names,
                },
            )
        } else {
            rest
        }
    }
}

/// The endpoints of a file: its routes sorted stably by line, verb and
/// path, one binding per distinct endpoint.
pub open spec fn endpoint_bindings(
    file_path: Seq<char>,
    language: Language,
    source: Seq<u8>,
    nodes: Seq<SyntaxNode>,
) -> Seq<BindingView> {
    let sorted = stable_sort(language_routes(language, source, nodes), route_order());
    bindings_upto(file_path, language, sorted, sorted.len() as int)
}

impl RouteCandidate {
    /// A field-by-field copy of the route.
    pub fn copy(&self) -> (r: RouteCandidate)
        ensures
            r@ == self@,
    {
        RouteCandidate {
            verb: self.verb.clone(),
            path: self.path.clone(),
            handler_names: copy_strings(&self.handler_names),
            start_line: self.start_line,
            end_line: self.end_line,
            start_column: self.start_column,
            end_column: self.end_column,
        }
    }
}

/// Whether route `a` comes strictly before route `b`.
fn route_before(a: &RouteCandidate, b: &RouteCandidate) -> (r: bool)
    ensures
        r == route_key_lt(a@, b@),
{
    if a.start_line != b.start_line {
        return a.start_line < b.start_line;
    }
    let av = chars_of(a.verb.as_str());
    let bv = chars_of(b.verb.as_str());
    if chars_lt(av.as_slice(), bv.as_slice()) {
        return true;
    }
    if !chars_equal(av.as_slice(), bv.as_slice()) {
        return false;
    }
    chars_lt(chars_of(a.path.as_str()).as_slice(), chars_of(b.path.as_str()).as_slice())
}

/// Sorts routes stably by line, verb and path.
fn sort_routes(v: Vec<RouteCandidate>) -> (r: Vec<RouteCandidate>)
    ensures
        routes_view(r@) == stable_sort(routes_view(v@), route_order()),
{
    let mut sorted: Vec<RouteCandidate> = Vec::new();
    let ghost all = routes_view(v@);
    let mut i: usize = 0;
    while i < v.len()
        invariant
            i <= v@.len(),
            all == routes_view(v@),
            routes_view(sorted@) == stable_sort(all.take(i as int), route_order()),
        decreases v@.len() - i,
    {
        let x = v[i].copy();
        let ghost s = routes_view(sorted@);
        let mut p: usize = 0;
        while p < sorted.len() && !route_before(&x, &sorted[p])
            invariant
                p <= sorted@.len(),
                s == routes_view(sorted@),
                insert_pos(s, x@, route_order(), 0) == insert_pos(s, x@, route_order(), p as int),
            decreases sorted@.len() - p,
        {
            p = p + 1;
        }
        proof {
            lemma_insert_pos_bounds(s, x@, route_order(), p as int);
            lemma_stable_sort_step(all, route_order(), i as int);
        }
        sorted.insert(p, x);
        assert(routes_view(sorted@) =~= s.take(p as int) + seq![x@] + s.skip(p as int));
        i = i + 1;
    }
    assert(all.take(all.len() as int) =~= all);
    sorted
}

/// Whether two routes declare the same endpoint.
fn same_route_exec(a: &RouteCandidate, b: &RouteCandidate) -> (r: bool)
    ensures
        r == same_route(a@, b@),
{
    a.start_line == b.start_line && str_eq(a.verb.as_str(), b.verb.as_str()) && str_eq(
        a.path.as_str(),
        b.path.as_str(),
    )
}

/// Endpoint facts for the routes declared in one parsed file: each router
/// call (`app.get('/users/:id', getUser)`) or Spring mapping annotation
/// becomes an `endpoint` symbol named `VERB path`, with the identifiers
/// among the call's later arguments as handler names. `nodes` is the file's
/// syntax tree in pre-order.
pub fn extract_endpoints(file_path: &str, language: Language, source: &str, nodes: &[SyntaxNode]) -> (r:
    Vec<EndpointBinding>)
    requires
        syntax_fits(encode_utf8(source@), nodes@),
    ensures
        bindings_view(r@) == endpoint_bindings(file_path@, language, encode_utf8(source@), nodes@),
{
    let routes = collect_routes(language, source.as_bytes(), nodes);
    let sorted = sort_routes(routes);
    let ghost sv = routes_view(sorted@);
    let mut endpoints: Vec<EndpointBinding> = Vec::new();
    let mut i: usize = 0;
    while i < sorted.len()
        invariant
            i <= sorted@.len(),
            sv == routes_view(sorted@),
            bindings_view(endpoints@) == bindings_upto(file_path@, language, sv, i as int),
        decreases sorted@.len() - i,
    {
        let route = &sorted[i];
        let mut seen = false;
        let mut j: usize = 0;
        while j < i
            invariant
                j <= i < sorted@.len(),
                sv == routes_view(sorted@),
                route@ == sv[i as int],
                seen ==> !first_of_its_route(sv, i as int),
                !seen ==> forall|k: int| 0 <= k < j ==> !same_route(#[trigger] sv[k], sv[i as int]),
            decreases i - j,
        {
            assert(sv[j as int] == sorted@[j as int]@);
            if same_route_exec(&sorted[j], route) {
                assert(same_route(sv[j as int], sv[i as int]));
                seen = true;
            }
            j = j + 1;
        }
        if !seen {
            let mut name = chars_of(route.verb.as_str());
            append_chars(&mut name, chars_of(" ").as_slice());
            append_chars(&mut name, chars_of(route.path.as_str()).as_slice());
            let name = string_from_chars(name.as_slice());
            let endpoint = CodeNode {
                id: make_node_id(NodeKind::Endpoint, file_path, name.as_str(), route.start_line),
                name,
                qualified_name: None,
                kind: NodeKind::Endpoint,
                file_path: file_path.to_owned(),
                start_line: route.start_line,
                end_line: route.end_line,
                start_column: route.start_column,
                end_column: route.end_column,
                language,
                body: None,
                documentation: None,
                exported: None,
            };
            let binding = EndpointBinding { endpoint, handler_names: copy_strings(&route.handler_names) };
            let ghost before = bindings_view(endpoints@);
            endpoints.push(binding);
            assert(bindings_view(endpoints@) =~= before.push(binding@));
        }
        i = i + 1;
    }
    endpoints
}

} // verus!
