//! Bounded pages of search, outline and relationship results, and the
//! resolution of a symbol argument.
use vstd::prelude::*;

use crate::order::{insert_pos, lemma_insert_pos_bounds, lemma_stable_sort_step, stable_sort};
use crate::service::{SymbolScope, MAX_LIMIT};
use crate::text::{chars_equal, chars_of};
use crate::types::{nodes_view, CodeNode, NodeKind, NodeView};

verus! {

/// `a + b`, or `usize::MAX` when that overflows.
pub open spec fn sat_add(a: usize, b: usize) -> usize {
    if a + b > usize::MAX {
        usize::MAX
    } else {
        (a + b) as usize
    }
}

// ---------------------------------------------------------------------------
// Search pages
// ---------------------------------------------------------------------------
/// How a search page is assembled: the exact-name matches that fall on it,
/// and, when they do not fill it, which full-text matches to fetch.
pub struct SearchPlan {
    pub nodes: Vec<CodeNode>,
    /// Offset and count of full-text matches still needed.
    pub fts: Option<(usize, usize)>,
}

/// The exact-name matches on a page of `limit` (plus one to tell whether
/// more follow) starting at `offset`.
pub open spec fn exact_on_page(exact: Seq<NodeView>, offset: usize, limit: usize) -> Seq<NodeView> {
    let capacity = sat_add(limit, 1);
    if offset < exact.len() {
        let end = if exact.len() - offset < capacity {
            exact.len() as int
        } else {
            offset + capacity
        };
        exact.subrange(offset as int, end)
    } else {
        Seq::empty()
    }
}

/// The full-text request that fills the rest of the page: it skips the
/// full-text matches that earlier pages showed.
pub open spec fn fts_request(exact_len: nat, taken: nat, offset: usize, limit: usize) -> Option<
    (usize, usize),
> {
    let capacity = sat_add(limit, 1);
    if taken < capacity {
        let fts_offset = if offset >= exact_len {
            (offset - exact_len) as usize
        } else {
            0usize
        };
        Some((fts_offset, (capacity - taken) as usize))
    } else {
        None
    }
}

/// Plans one search page: exact-name matches first, then full-text matches.
pub fn plan_search_page(exact: &Vec<CodeNode>, offset: usize, limit: usize) -> (r: SearchPlan)
    ensures
        nodes_view(r.nodes@) == exact_on_page(nodes_view(exact@), offset, limit),
        r.fts == fts_request(exact@.len(), r.nodes@.len(), offset, limit),
{
    let capacity = limit.saturating_add(1);
    let mut nodes: Vec<CodeNode> = Vec::new();
    if offset < exact.len() {
        let end = if exact.len() - offset < capacity {
            exact.len()
        } else {
            offset + capacity
        };
        let mut i = offset;
        while i < end
            invariant
                offset <= i <= end <= exact@.len(),
                nodes_view(nodes@) == nodes_view(exact@).subrange(offset as int, i as int),
            decreases end - i,
        {
            let ghost before = nodes_view(nodes@);
            let n = exact[i].copy();
            let ghost nv = n@;
            nodes.push(n);
            assert(nodes_view(nodes@) =~= before.push(nv));
            assert(nodes_view(exact@)[i as int] == nv);
            assert(nodes_view(nodes@) =~= nodes_view(exact@).subrange(offset as int, i + 1));
            i = i + 1;
        }
    } else {
        assert(nodes_view(nodes@) =~= Seq::<NodeView>::empty());
    }
    let fts = if nodes.len() < capacity {
        Some((offset.saturating_sub(exact.len()), capacity - nodes.len()))
    } else {
        None
    };
    SearchPlan { nodes, fts }
}

/// A finished page and where the next one starts.
pub struct Page {
    pub results: Vec<CodeNode>,
    pub next_offset: Option<usize>,
}

/// The page made of the planned nodes and the fetched full-text matches:
/// the first `limit` of them, with a next offset when more were found.
pub open spec fn finished_page(found: Seq<NodeView>, offset: usize, limit: usize) -> (Seq<NodeView>, Option<
    usize,
>) {
    if found.len() > limit {
        (found.take(limit as int), Some(sat_add(offset, limit)))
    } else {
        (found, None)
    }
}

/// The full-text matches not named `exact_name`, in order: the exact-name
/// matches lead the page, and the full-text part never repeats them.
pub open spec fn other_named(fetched: Seq<NodeView>, exact_name: Seq<char>) -> Seq<NodeView>
    decreases fetched.len(),
{
    if fetched.len() == 0 {
        Seq::empty()
    } else {
        let rest = other_named(fetched.drop_last(), exact_name);
        if fetched.last().name == exact_name {
            rest
        } else {
            rest.push(fetched.last())
        }
    }
}

pub proof fn lemma_other_named_excludes(fetched: Seq<NodeView>, exact_name: Seq<char>)
    ensures
        forall|i: int|
            0 <= i < other_named(fetched, exact_name).len() ==> #[trigger] other_named(fetched, exact_name)[i].name
                != exact_name,
    decreases fetched.len(),
{
    if fetched.len() > 0 {
        lemma_other_named_excludes(fetched.drop_last(), exact_name);
    }
}

/// Completes a search page: the planned exact-name matches, then the
/// fetched full-text matches that are not named `exact_name`, cut to the
/// page size.
pub fn finish_search_page(
    planned: Vec<CodeNode>,
    fetched: Vec<CodeNode>,
    exact_name: &str,
    offset: usize,
    limit: usize,
) -> (r: Page)
    ensures
        (nodes_view(r.results@), r.next_offset) == finished_page(
            nodes_view(planned@) + other_named(nodes_view(fetched@), exact_name@),
            offset,
            limit,
        ),
        forall|i: int|
            planned@.len() <= i < r.results@.len() ==> (#[trigger] r.results@[i]).name@ != exact_name@,
{
    let mut nodes = planned;
    let ghost first = nodes_view(nodes@);
    assert(first.len() == planned@.len());
    let ghost fv = nodes_view(fetched@);
    let mut i: usize = 0;
    while i < fetched.len()
        invariant
            i <= fetched@.len(),
            fv == nodes_view(fetched@),
            nodes_view(nodes@) == first + other_named(fv.take(i as int), exact_name@),
        decreases fetched@.len() - i,
    {
        assert(fv.take(i + 1).drop_last() =~= fv.take(i as int));
        assert(fv.take(i + 1).last() == fetched@[i as int]@);
        if !crate::text::str_eq(fetched[i].name.as_str(), exact_name) {
            let n = fetched[i].copy();
            let ghost before = nodes_view(nodes@);
            nodes.push(n);
            assert(nodes_view(nodes@) =~= before.push(n@));
            assert(nodes_view(nodes@) =~= first + other_named(fv.take(i + 1), exact_name@));
        }
        i = i + 1;
    }
    assert(fv.take(fetched@.len() as int) =~= fv);
    proof {
        lemma_other_named_excludes(fv, exact_name@);
    }
    let ghost all = nodes_view(nodes@);
    assert forall|i: int| first.len() <= i < all.len() implies #[trigger] all[i].name != exact_name@ by {
        assert(all[i] == other_named(fv, exact_name@)[i - first.len()]);
    }
    if nodes.len() > limit {
        nodes.truncate(limit);
        assert(nodes_view(nodes@) =~= all.take(limit as int));
        assert forall|i: int| first.len() <= i < nodes@.len() implies (#[trigger] nodes@[i]).name@ != exact_name@ by {
            assert(nodes_view(nodes@)[i] == nodes@[i]@);
            assert(nodes_view(nodes@)[i] == all[i]);
            assert(all[i].name != exact_name@);
        }
        Page { results: nodes, next_offset: Some(offset.saturating_add(limit)) }
    } else {
        assert forall|i: int| first.len() <= i < nodes@.len() implies (#[trigger] nodes@[i]).name@ != exact_name@ by {
            assert(nodes_view(nodes@)[i] == nodes@[i]@);
            assert(all[i].name != exact_name@);
        }
        Page { results: nodes, next_offset: None }
    }
}

// ---------------------------------------------------------------------------
// Discovery scope
// ---------------------------------------------------------------------------
/// Whether `e` is a function or method of `n`'s file, other than `n`, whose
/// line range contains `n`.
pub open spec fn encloses_in_file(e: NodeView, n: NodeView) -> bool {
    (e.kind == NodeKind::Function || e.kind == NodeKind::Method) && e.file_path == n.file_path && e.id
        != n.id && e.start_line <= n.start_line && e.end_line >= n.end_line
}

/// Whether `n` is a variable declared inside a function or method of its
/// own file, among `context`.
pub open spec fn local_in(n: NodeView, context: Seq<NodeView>) -> bool {
    n.kind == NodeKind::Variable && exists|i: int|
        0 <= i < context.len() && encloses_in_file(#[trigger] context[i], n)
}

/// The nodes that a discovery scope keeps, in order: all of them, or those
/// that are not local variables.
pub open spec fn in_scope(nodes: Seq<NodeView>, scope: SymbolScope, context: Seq<NodeView>) -> Seq<
    NodeView,
>
    decreases nodes.len(),
{
    if nodes.len() == 0 {
        Seq::empty()
    } else {
        let rest = in_scope(nodes.drop_last(), scope, context);
        if scope == SymbolScope::All || !local_in(nodes.last(), context) {
            rest.push(nodes.last())
        } else {
            rest
        }
    }
}

/// Whether `node` is local among `context` (see [`local_in`]).
fn is_local_in(node: &CodeNode, context: &[CodeNode]) -> (r: bool)
    ensures
        r == local_in(node@, nodes_view(context@)),
{
    if node.kind != NodeKind::Variable {
        return false;
    }
    let file = chars_of(node.file_path.as_str());
    let id = chars_of(node.id.as_str());
    let ghost cv = nodes_view(context@);
    let mut i: usize = 0;
    while i < context.len()
        invariant
            i <= context@.len(),
            cv == nodes_view(context@),
            file@ == node.file_path@,
            id@ == node.id@,
            node.kind == NodeKind::Variable,
            forall|j: int| 0 <= j < i ==> !encloses_in_file(#[trigger] cv[j], node@),
        decreases context@.len() - i,
    {
        let e = &context[i];
        assert(cv[i as int] == e@);
        let callable = e.kind == NodeKind::Function || e.kind == NodeKind::Method;
        if callable && chars_equal(chars_of(e.file_path.as_str()).as_slice(), file.as_slice())
            && !chars_equal(chars_of(e.id.as_str()).as_slice(), id.as_slice())
            && e.start_line <= node.start_line && e.end_line >= node.end_line {
            assert(encloses_in_file(cv[i as int], node@));
            return true;
        }
        i = i + 1;
    }
    false
}

/// Drops local variables from discovery results unless every symbol is in
/// scope; `context` holds the symbols of the files involved.
pub fn filter_nodes_by_scope(nodes: Vec<CodeNode>, scope: SymbolScope, context: &[CodeNode]) -> (r: Vec<
    CodeNode,
>)
    ensures
        nodes_view(r@) == in_scope(nodes_view(nodes@), scope, nodes_view(context@)),
{
    let ghost nv = nodes_view(nodes@);
    let mut kept: Vec<CodeNode> = Vec::new();
    let mut i: usize = 0;
    while i < nodes.len()
        invariant
            i <= nodes@.len(),
            nv == nodes_view(nodes@),
            nodes_view(kept@) == in_scope(nv.take(i as int), scope, nodes_view(context@)),
        decreases nodes@.len() - i,
    {
        proof {
            assert(nv.take(i + 1).drop_last() =~= nv.take(i as int));
            assert(nv.take(i + 1).last() == nodes@[i as int]@);
        }
        let n = &nodes[i];
        let all = match scope {
            SymbolScope::All => true,
            SymbolScope::TopLevel => false,
        };
        if all || !is_local_in(n, context) {
            let ghost before = nodes_view(kept@);
            let c = n.copy();
            kept.push(c);
            assert(nodes_view(kept@) =~= before.push(c@));
        }
        i = i + 1;
    }
    assert(nv.take(nv.len() as int) =~= nv);
    kept
}

// ---------------------------------------------------------------------------
// Outline pages
// ---------------------------------------------------------------------------
/// The nodes of kind `kind` (all nodes when no kind is asked for), in order.
pub open spec fn of_kind(nodes: Seq<NodeView>, kind: Option<NodeKind>) -> Seq<NodeView>
    decreases nodes.len(),
{
    if nodes.len() == 0 {
        Seq::empty()
    } else {
        let rest = of_kind(nodes.drop_last(), kind);
        if kind is None || nodes.last().kind == kind.unwrap() {
            rest.push(nodes.last())
        } else {
            rest
        }
    }
}

/// Source order: by start line, then start column.
pub open spec fn source_order() -> spec_fn(NodeView, NodeView) -> bool {
    |a: NodeView, b: NodeView| a.start_line < b.start_line || (a.start_line == b.start_line
        && a.start_column < b.start_column)
}

/// `s[offset..]` cut to at most `limit` elements.
pub open spec fn window<T>(s: Seq<T>, offset: usize, limit: usize) -> Seq<T> {
    if offset >= s.len() {
        Seq::empty()
    } else if s.len() - offset <= limit {
        s.skip(offset as int)
    } else {
        s.subrange(offset as int, offset + limit)
    }
}

/// One outline page and whether symbols follow it.
pub struct OutlinePage {
    pub symbols: Vec<CodeNode>,
    pub truncated: bool,
    pub next_offset: Option<usize>,
}

/// The symbols of a file that an outline lists, in source order (stable for
/// symbols at one position).
pub open spec fn outline_symbols(file_nodes: Seq<NodeView>, kind: Option<NodeKind>, scope: SymbolScope) -> Seq<
    NodeView,
> {
    stable_sort(in_scope(of_kind(file_nodes, kind), scope, file_nodes), source_order())
}

/// Copies `v[offset..]`, at most `limit` of them.
fn copy_window(v: &Vec<CodeNode>, offset: usize, limit: usize) -> (r: Vec<CodeNode>)
    ensures
        nodes_view(r@) == window(nodes_view(v@), offset, limit),
{
    let mut r: Vec<CodeNode> = Vec::new();
    if offset >= v.len() {
        assert(nodes_view(r@) =~= Seq::<NodeView>::empty());
        return r;
    }
    let end = if v.len() - offset <= limit {
        v.len()
    } else {
        offset + limit
    };
    let mut i = offset;
    while i < end
        invariant
            offset <= i <= end <= v@.len(),
            nodes_view(r@) == nodes_view(v@).subrange(offset as int, i as int),
        decreases end - i,
    {
        let ghost before = nodes_view(r@);
        let n = v[i].copy();
        let ghost nv = n@;
        r.push(n);
        assert(nodes_view(r@) =~= before.push(nv));
        assert(nodes_view(v@)[i as int] == nv);
        assert(nodes_view(r@) =~= nodes_view(v@).subrange(offset as int, i + 1));
        i = i + 1;
    }
    assert(nodes_view(v@).subrange(offset as int, v@.len() as int) =~= nodes_view(v@).skip(offset as int));
    r
}

/// Sorts nodes stably into source order.
fn sort_by_position(v: Vec<CodeNode>) -> (r: Vec<CodeNode>)
    ensures
        nodes_view(r@) == stable_sort(nodes_view(v@), source_order()),
{
    let mut sorted: Vec<CodeNode> = Vec::new();
    let ghost all = nodes_view(v@);
    let mut i: usize = 0;
    while i < v.len()
        invariant
            i <= v@.len(),
            all == nodes_view(v@),
            nodes_view(sorted@) == stable_sort(all.take(i as int), source_order()),
        decreases v@.len() - i,
    {
        let x = v[i].copy();
        let ghost s = nodes_view(sorted@);
        let mut p: usize = 0;
        while p < sorted.len() && !(x.start_line < sorted[p].start_line || (x.start_line
            == sorted[p].start_line && x.start_column < sorted[p].start_column))
            invariant
                p <= sorted@.len(),
                s == nodes_view(sorted@),
                insert_pos(s, x@, source_order(), 0) == insert_pos(s, x@, source_order(), p as int),
            decreases sorted@.len() - p,
        {
            assert(s[p as int] == sorted@[p as int]@);
            p = p + 1;
        }
        proof {
            if p < sorted@.len() {
                assert(s[p as int] == sorted@[p as int]@);
            }
            lemma_insert_pos_bounds(s, x@, source_order(), p as int);
            lemma_stable_sort_step(all, source_order(), i as int);
        }
        sorted.insert(p, x);
        assert(nodes_view(sorted@) =~= s.take(p as int) + seq![x@] + s.skip(p as int));
        i = i + 1;
    }
    assert(all.take(all.len() as int) =~= all);
    sorted
}

/// One outline page of a file's symbols: those of the asked kind and scope,
/// in source order, `limit` of them from `offset`, and the offset of the
/// next page when symbols follow.
pub fn outline_page(
    file_nodes: &[CodeNode],
    kind: Option<NodeKind>,
    scope: SymbolScope,
    offset: usize,
    limit: usize,
) -> (r: OutlinePage)
    ensures
        ({
            let all = outline_symbols(nodes_view(file_nodes@), kind, scope);
            let page_end = sat_add(offset, limit);
            &&& nodes_view(r.symbols@) == window(all, offset, limit)
            &&& r.truncated == (all.len() > page_end)
            &&& r.next_offset == if all.len() > page_end {
                Some(page_end)
            } else {
                None
            }
        }),
{
    let ghost fv = nodes_view(file_nodes@);
    let mut selected: Vec<CodeNode> = Vec::new();
    let mut i: usize = 0;
    while i < file_nodes.len()
        invariant
            i <= file_nodes@.len(),
            fv == nodes_view(file_nodes@),
            nodes_view(selected@) == of_kind(fv.take(i as int), kind),
        decreases file_nodes@.len() - i,
    {
        proof {
            assert(fv.take(i + 1).drop_last() =~= fv.take(i as int));
            assert(fv.take(i + 1).last() == file_nodes@[i as int]@);
        }
        let keep = match kind {
            None => true,
            Some(k) => file_nodes[i].kind == k,
        };
        if keep {
            let ghost before = nodes_view(selected@);
            let c = file_nodes[i].copy();
            selected.push(c);
            assert(nodes_view(selected@) =~= before.push(c@));
        }
        i = i + 1;
    }
    assert(fv.take(fv.len() as int) =~= fv);
    let scoped = filter_nodes_by_scope(selected, scope, file_nodes);
    let sorted = sort_by_position(scoped);
    let page_end = offset.saturating_add(limit);
    let truncated = sorted.len() > page_end;
    let symbols = copy_window(&sorted, offset, limit);
    OutlinePage {
        symbols,
        truncated,
        next_offset: if truncated {
            Some(page_end)
        } else {
            None
        },
    }
}

// ---------------------------------------------------------------------------
// Symbol arguments
// ---------------------------------------------------------------------------
/// What a symbol argument names.
pub enum SymbolResolution {
    NotFound,
    /// Up to `MAX_LIMIT` of the matching symbols.
    Ambiguous(Vec<CodeNode>),
    One(CodeNode),
}

/// The symbols named by a non-id argument, restricted to one file when the
/// request names it: none, one, or several (the first `MAX_LIMIT` kept).
pub open spec fn resolution_spec(matches: Seq<NodeView>, requested_file: Option<Seq<char>>) -> (nat, Seq<
    NodeView,
>) {
    let m = match requested_file {
        Some(f) => crate::indexer::pipeline::in_file(matches, f),
        None => matches,
    };
    (m.len(), if m.len() <= MAX_LIMIT {
        m
    } else {
        m.take(MAX_LIMIT as int)
    })
}

/// Resolves a symbol argument from the symbols with that name; the symbol
/// id lookup comes first and is the caller's.
pub fn resolve_from_matches(matches: Vec<CodeNode>, requested_file: Option<&str>) -> (r: SymbolResolution)
    ensures
        ({
            let (count, kept) = resolution_spec(
                nodes_view(matches@),
                match requested_file {
                    Some(f) => Some(f@),
                    None => None,
                },
            );
            match r {
                SymbolResolution::NotFound => count == 0,
                SymbolResolution::One(n) => count == 1 && kept == seq![n@],
                SymbolResolution::Ambiguous(v) => count > 1 && nodes_view(v@) == kept,
            }
        }),
{
    let ghost mv = nodes_view(matches@);
    let kept: Vec<CodeNode> = match requested_file {
        None => matches,
        Some(f) => {
            let file = chars_of(f);
            let mut kept: Vec<CodeNode> = Vec::new();
            let mut i: usize = 0;
            while i < matches.len()
                invariant
                    i <= matches@.len(),
                    mv == nodes_view(matches@),
                    file@ == f@,
                    nodes_view(kept@) == crate::indexer::pipeline::in_file(mv.take(i as int), f@),
                decreases matches@.len() - i,
            {
                proof {
                    assert(mv.take(i + 1).drop_last() =~= mv.take(i as int));
                    assert(mv.take(i + 1).last() == matches@[i as int]@);
                }
                if chars_equal(chars_of(matches[i].file_path.as_str()).as_slice(), file.as_slice()) {
                    let ghost before = nodes_view(kept@);
                    let c = matches[i].copy();
                    kept.push(c);
                    assert(nodes_view(kept@) =~= before.push(c@));
                }
                i = i + 1;
            }
            assert(mv.take(mv.len() as int) =~= mv);
            kept
        },
    };
    if kept.len() == 0 {
        return SymbolResolution::NotFound;
    }
    if kept.len() == 1 {
        let one = kept[0].copy();
        assert(nodes_view(kept@) =~= seq![one@]);
        return SymbolResolution::One(one);
    }
    let mut shown = kept;
    if shown.len() > MAX_LIMIT {
        let ghost all = nodes_view(shown@);
        shown.truncate(MAX_LIMIT);
        assert(nodes_view(shown@) =~= all.take(MAX_LIMIT as int));
    }
    SymbolResolution::Ambiguous(shown)
}

// ---------------------------------------------------------------------------
// Relationship pages
// ---------------------------------------------------------------------------
/// Positions of the `true` entries, in order.
pub open spec fn true_positions(present: Seq<bool>) -> Seq<usize>
    decreases present.len(),
{
    if present.len() == 0 {
        Seq::empty()
    } else {
        let rest = true_positions(present.drop_last());
        if present.last() {
            rest.push((present.len() - 1) as usize)
        } else {
            rest
        }
    }
}

/// The relationships on a page: among the edges whose two symbols both
/// exist (`present`), skip `offset` and keep `limit` (all when `limit` is
/// zero). Positions into the edge list.
pub open spec fn relationship_page_spec(present: Seq<bool>, offset: usize, limit: usize) -> Seq<usize> {
    let p = true_positions(present);
    if limit == 0 {
        if offset >= p.len() {
            Seq::empty()
        } else {
            p.skip(offset as int)
        }
    } else {
        window(p, offset, limit)
    }
}

proof fn lemma_true_positions_prefix(present: Seq<bool>, k: int)
    requires
        0 <= k <= present.len(),
    ensures
        true_positions(present.take(k)).len() <= true_positions(present).len(),
        true_positions(present.take(k)) == true_positions(present).take(
            true_positions(present.take(k)).len() as int,
        ),
    decreases present.len() - k,
{
    if k < present.len() {
        lemma_true_positions_prefix(present, k + 1);
        assert(present.take(k + 1).drop_last() =~= present.take(k));
        let a = true_positions(present.take(k));
        let b = true_positions(present.take(k + 1));
        assert(b.take(a.len() as int) =~= a);
        assert(true_positions(present).take(b.len() as int).take(a.len() as int) =~= true_positions(
            present,
        ).take(a.len() as int));
    } else {
        assert(present.take(k) =~= present);
        assert(true_positions(present).take(true_positions(present).len() as int) =~= true_positions(
            present,
        ));
    }
}

/// Selects the relationships of one page (see [`relationship_page_spec`]).
pub fn relationship_page(present: &[bool], offset: usize, limit: usize) -> (r: Vec<usize>)
    ensures
        r@ == relationship_page_spec(present@, offset, limit),
{
    let mut selected: Vec<usize> = Vec::new();
    let mut skipped: usize = 0;
    let mut i: usize = 0;
    let ghost done = false;
    while i < present.len()
        invariant
            i <= present@.len(),
            skipped <= offset,
            skipped < offset ==> selected@.len() == 0 && skipped == true_positions(present@.take(i as int)).len(),
            skipped == offset ==> offset + selected@.len() == true_positions(present@.take(i as int)).len()
                && selected@ == true_positions(present@.take(i as int)).skip(offset as int),
            limit > 0 ==> selected@.len() < limit,
        decreases present@.len() - i,
    {
        let ghost tp = true_positions(present@.take(i as int));
        proof {
            assert(present@.take(i + 1).drop_last() =~= present@.take(i as int));
            assert(present@.take(i + 1).last() == present@[i as int]);
        }
        if present[i] {
            if skipped < offset {
                skipped = skipped + 1;
            } else {
                selected.push(i);
                assert(selected@ =~= true_positions(present@.take(i + 1)).skip(offset as int));
                if selected.len() == limit {
                    proof {
                        let full = true_positions(present@);
                        let a = true_positions(present@.take(i + 1));
                        lemma_true_positions_prefix(present@, i + 1);
                        assert(a.len() == offset + limit);
                        if full.len() - offset <= limit {
                            assert(selected@ =~= full.skip(offset as int));
                        } else {
                            assert(selected@ =~= full.subrange(offset as int, offset + limit));
                        }
                    }
                    return selected;
                }
            }
        }
        i = i + 1;
    }
    assert(present@.take(present@.len() as int) =~= present@);
    selected
}

// ---------------------------------------------------------------------------
// Semantic reference pages
// ---------------------------------------------------------------------------
/// `n + 1`, or `u32::MAX` when that overflows.
pub open spec fn sat_inc(n: u32) -> u32 {
    if n == u32::MAX {
        n
    } else {
        (n + 1) as u32
    }
}

/// The repository fact of one semantic location: 1-based lines, the
/// location's columns, the stored hash of its file.
pub open spec fn is_semantic_fact(
    f: crate::service::SemanticLocationFact,
    loc: crate::lsp::LspLocation,
    file_path: Seq<char>,
    source_hash: Seq<char>,
    provider: Seq<char>,
) -> bool {
    &&& f.evidence.file_path@ == file_path
    &&& f.evidence.start_line == sat_inc(loc.start_line)
    &&& f.evidence.end_line == sat_inc(loc.end_line)
    &&& f.evidence.source_hash matches Some(h) && h@ == source_hash
    &&& f.evidence.extractor@ == "lsp:"@ + provider
    &&& f.evidence.confidence@ == "semantic"@
    &&& f.start_column == loc.start_character
    &&& f.end_column == loc.end_character
}

/// Positions of the locations that resolve to an indexed repository file.
pub open spec fn resolvable(files: Seq<Option<(String, String)>>) -> Seq<int>
    decreases files.len(),
{
    if files.len() == 0 {
        Seq::empty()
    } else {
        let rest = resolvable(files.drop_last());
        if files.last() is Some {
            rest.push(files.len() - 1)
        } else {
            rest
        }
    }
}

/// The semantic facts of a reference answer and how many locations were
/// left out.
pub struct SemanticFacts {
    pub facts: Vec<crate::service::SemanticLocationFact>,
    pub omitted: usize,
}

/// Turns semantic reference locations into repository facts: a location
/// becomes a fact when it resolves to an indexed file (`files[i]`: its
/// repository-relative path and stored hash) and the page of `limit` facts
/// is not full; every other location counts as omitted.
pub fn semantic_location_facts(
    locations: &[crate::lsp::LspLocation],
    files: &[Option<(String, String)>],
    provider: &str,
    limit: usize,
) -> (r: SemanticFacts)
    requires
        locations@.len() == files@.len(),
    ensures
        ({
            let kept = window(resolvable(files@), 0, limit);
            &&& r.facts@.len() == kept.len()
            &&& r.omitted == locations@.len() - kept.len()
            &&& forall|j: int|
                0 <= j < kept.len() ==> is_semantic_fact(
                    #[trigger] r.facts@[j],
                    locations@[kept[j]],
                    files@[kept[j]].unwrap().0@,
                    files@[kept[j]].unwrap().1@,
                    provider@,
                )
        }),
{
    let mut facts: Vec<crate::service::SemanticLocationFact> = Vec::new();
    let mut omitted: usize = 0;
    let mut i: usize = 0;
    let mut extractor = chars_of("lsp:");
    crate::text::append_chars(&mut extractor, chars_of(provider).as_slice());
    let ghost kept_all = resolvable(files@);
    while i < locations.len()
        invariant
            i <= locations@.len() == files@.len(),
            extractor@ == "lsp:"@ + provider@,
            kept_all == resolvable(files@),
            facts@.len() == window(resolvable(files@.take(i as int)), 0, limit).len(),
            facts@.len() + omitted == i,
            limit > 0 ==> facts@.len() <= limit,
            forall|j: int|
                0 <= j < facts@.len() ==> is_semantic_fact(
                    #[trigger] facts@[j],
                    locations@[resolvable(files@.take(i as int))[j]],
                    files@[resolvable(files@.take(i as int))[j]].unwrap().0@,
                    files@[resolvable(files@.take(i as int))[j]].unwrap().1@,
                    provider@,
                ),
        decreases locations@.len() - i,
    {
        proof {
            assert(files@.take(i + 1).drop_last() =~= files@.take(i as int));
            assert(files@.take(i + 1).last() == files@[i as int]);
            lemma_resolvable_bounds(files@.take(i as int));
        }
        let ghost prev = resolvable(files@.take(i as int));
        if facts.len() == limit {
            omitted = omitted + 1;
        } else {
            match &files[i] {
                None => {
                    omitted = omitted + 1;
                },
                Some((file_path, source_hash)) => {
                    let loc = &locations[i];
                    let fact = crate::service::SemanticLocationFact {
                        evidence: crate::service::Evidence {
                            file_path: file_path.clone(),
                            start_line: loc.start_line.saturating_add(1),
                            end_line: loc.end_line.saturating_add(1),
                            source_hash: Some(source_hash.clone()),
                            extractor: crate::text::string_from_chars(extractor.as_slice()),
                            confidence: "semantic".to_owned(),
                        },
                        start_column: loc.start_character,
                        end_column: loc.end_character,
                    };
                    facts.push(fact);
                },
            }
        }
        i = i + 1;
    }
    assert(files@.take(files@.len() as int) =~= files@);
    SemanticFacts { facts, omitted }
}

proof fn lemma_resolvable_bounds(files: Seq<Option<(String, String)>>)
    ensures
        forall|j: int|
            0 <= j < resolvable(files).len() ==> 0 <= #[trigger] resolvable(files)[j] < files.len()
                && files[resolvable(files)[j]] is Some,
        forall|a: int, b: int|
            0 <= a < b < resolvable(files).len() ==> resolvable(files)[a] < resolvable(files)[b],
    decreases files.len(),
{
    if files.len() > 0 {
        lemma_resolvable_bounds(files.drop_last());
    }
}

} // verus!
