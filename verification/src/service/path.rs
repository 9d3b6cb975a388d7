//! Breadth-first search for a static `calls` path between two symbols.
//!
//! The search is a state machine: it hands out the next breadth-first
//! frontier, is given the confirmed outgoing `calls` edges of that frontier,
//! and reports the path once the target is reached. Fetching the edges from
//! the fact store happens between the steps.
use vstd::prelude::*;

use crate::service::PATH_SEARCH_VISIT_LIMIT;
use crate::text::{chars_equal, chars_of};
use crate::text::str_eq;
use crate::types::{edge_metadata, edges_view, strings_view, CodeEdge, EdgeKind, EdgeView};

verus! {

/// The state of a path search.
pub struct PathSearch {
    from: String,
    to: String,
    /// Symbols in the order they were reached; the first is `from`.
    visited: Vec<String>,
    /// For each reached symbol after the first: the position of its
    /// predecessor among `visited` (if the edge's source was reached) and
    /// the edge that reached it.
    links: Vec<(Option<usize>, CodeEdge)>,
    /// `visited[queue_start..]` is the breadth-first queue.
    queue_start: usize,
}

pub struct SearchView {
    pub from: Seq<char>,
    pub to: Seq<char>,
    pub visited: Seq<Seq<char>>,
    pub links: Seq<(Option<usize>, EdgeView)>,
    pub queue_start: nat,
}

pub open spec fn links_view(v: Seq<(Option<usize>, CodeEdge)>) -> Seq<(Option<usize>, EdgeView)> {
    v.map_values(|l: (Option<usize>, CodeEdge)| (l.0, l.1@))
}

impl View for PathSearch {
    type V = SearchView;

    closed spec fn view(&self) -> SearchView {
        SearchView {
            from: self.from@,
            to: self.to@,
            visited: strings_view(self.visited@),
            links: links_view(self.links@),
            queue_start: self.queue_start as nat,
        }
    }
}

/// Position of `id` among `ids`, or -1.
pub open spec fn position_of(ids: Seq<Seq<char>>, id: Seq<char>) -> int
    decreases ids.len(),
{
    if ids.len() == 0 {
        -1
    } else if ids.last() == id {
        ids.len() - 1
    } else {
        position_of(ids.drop_last(), id)
    }
}

/// The state is well formed: `from` reached first, every later symbol
/// reached once by an edge ending at it from an earlier symbol (when the
/// edge's source was reached at all), and the queue a suffix.
pub open spec fn search_wf(s: SearchView) -> bool {
    &&& s.visited.len() >= 1
    &&& s.visited[0] == s.from
    &&& s.links.len() == s.visited.len() - 1
    &&& s.queue_start <= s.visited.len()
    &&& forall|i: int, j: int| 0 <= i < j < s.visited.len() ==> s.visited[i] != s.visited[j]
    &&& forall|k: int|
        1 <= k < s.visited.len() ==> {
            &&& (#[trigger] s.links[k - 1]).1.target == s.visited[k]
            &&& match s.links[k - 1].0 {
                Some(p) => p < k && s.visited[p as int] == s.links[k - 1].1.source,
                None => true,
            }
        }
}

/// Whether an edge is a confirmed static call: a `calls` edge that is not a
/// heuristic candidate. Only these carry a path.
pub open spec fn confirmed_call(e: EdgeView) -> bool {
    e.kind == EdgeKind::Calls && edge_metadata(e, "confidence"@) != Some("heuristic"@)
}

/// The confirmed static calls among `edges`, in order.
pub open spec fn confirmed_calls_spec(edges: Seq<EdgeView>) -> Seq<EdgeView>
    decreases edges.len(),
{
    if edges.len() == 0 {
        Seq::empty()
    } else {
        let rest = confirmed_calls_spec(edges.drop_last());
        if confirmed_call(edges.last()) {
            rest.push(edges.last())
        } else {
            rest
        }
    }
}

/// Keeps the confirmed static calls of a frontier's outgoing edges (see
/// [`confirmed_call`]): polymorphic, ambiguous and endpoint candidates never
/// join a path.
pub fn confirmed_calls(edges: &[CodeEdge]) -> (r: Vec<CodeEdge>)
    ensures
        edges_view(r@) == confirmed_calls_spec(edges_view(edges@)),
{
    let ghost ev = edges_view(edges@);
    let mut r: Vec<CodeEdge> = Vec::new();
    let mut i: usize = 0;
    while i < edges.len()
        invariant
            i <= edges@.len(),
            ev == edges_view(edges@),
            edges_view(r@) == confirmed_calls_spec(ev.take(i as int)),
        decreases edges@.len() - i,
    {
        assert(ev.take(i + 1).drop_last() =~= ev.take(i as int));
        assert(ev.take(i + 1).last() == edges@[i as int]@);
        let e = &edges[i];
        let heuristic = match e.metadata_value("confidence") {
            Some(v) => str_eq(v.as_str(), "heuristic"),
            None => false,
        };
        let is_call = match e.kind {
            EdgeKind::Calls => true,
            _ => false,
        };
        if is_call && !heuristic {
            let c = e.clone_edge();
            let ghost before = edges_view(r@);
            r.push(c);
            assert(edges_view(r@) =~= before.push(c@));
        }
        i = i + 1;
    }
    assert(ev.take(edges@.len() as int) =~= ev);
    r
}

/// A new search from `from` towards `to`.
pub open spec fn start_spec(from: Seq<char>, to: Seq<char>) -> SearchView {
    SearchView { from, to, visited: seq![from], links: Seq::empty(), queue_start: 0 }
}

/// The next frontier: up to the rest of the visit budget of the queue's
/// head, taken off the queue; none when the queue is empty or the budget is
/// spent.
pub open spec fn frontier_spec(s: SearchView) -> (SearchView, Option<Seq<Seq<char>>>) {
    if s.queue_start >= s.visited.len() || s.visited.len() >= PATH_SEARCH_VISIT_LIMIT {
        (s, None)
    } else {
        let waiting = s.visited.len() - s.queue_start;
        let budget = PATH_SEARCH_VISIT_LIMIT - s.visited.len();
        let n = if waiting < budget {
            waiting
        } else {
            budget
        };
        (
            SearchView { queue_start: (s.queue_start + n) as nat, ..s },
            Some(s.visited.subrange(s.queue_start as int, s.queue_start + n)),
        )
    }
}

/// The state after reaching `e.target` through `e`.
pub open spec fn reach(s: SearchView, e: EdgeView) -> SearchView {
    let p = position_of(s.visited, e.source);
    SearchView {
        visited: s.visited.push(e.target),
        links: s.links.push(
            (
                if p >= 0 {
                    Some(p as usize)
                } else {
                    None
                },
                e,
            ),
        ),
        ..s
    }
}

/// Absorbing a frontier's edges in order: each edge to an unreached symbol
/// reaches it, until the visit budget is spent or the target is reached
/// (then `true`).
pub open spec fn absorb_spec(s: SearchView, edges: Seq<EdgeView>) -> (SearchView, bool)
    decreases edges.len(),
{
    if edges.len() == 0 || s.visited.len() >= PATH_SEARCH_VISIT_LIMIT {
        (s, false)
    } else {
        let e = edges[0];
        if position_of(s.visited, e.target) >= 0 {
            absorb_spec(s, edges.drop_first())
        } else {
            let s2 = reach(s, e);
            if e.target == s.to {
                (s2, true)
            } else {
                absorb_spec(s2, edges.drop_first())
            }
        }
    }
}

/// The path that ends at the `k`-th reached symbol: its symbol ids from
/// `from` on and the edges between them; none when a predecessor was never
/// reached.
pub open spec fn chain_spec(s: SearchView, k: int) -> Option<(Seq<Seq<char>>, Seq<EdgeView>)>
    decreases k,
{
    if k <= 0 {
        Some((seq![s.from], Seq::empty()))
    } else if k >= s.visited.len() {
        None
    } else {
        match s.links[k - 1].0 {
            None => None,
            Some(p) => if p < k {
                match chain_spec(s, p as int) {
                    None => None,
                    Some((ids, edges)) => Some((ids.push(s.visited[k]), edges.push(s.links[k - 1].1))),
                }
            } else {
                None
            },
        }
    }
}

/// A path is a chain of edges from its first id to its last.
pub open spec fn is_path(ids: Seq<Seq<char>>, edges: Seq<EdgeView>) -> bool {
    &&& ids.len() == edges.len() + 1
    &&& forall|i: int|
        0 <= i < edges.len() ==> (#[trigger] edges[i]).source == ids[i] && edges[i].target == ids[i
            + 1]
}

/// Every chain of a well-formed search is a path from `from` to the symbol
/// it ends at.
pub proof fn lemma_chain_is_path(s: SearchView, k: int)
    requires
        search_wf(s),
        0 <= k < s.visited.len(),
        chain_spec(s, k) is Some,
    ensures
        is_path(chain_spec(s, k).unwrap().0, chain_spec(s, k).unwrap().1),
        chain_spec(s, k).unwrap().0[0] == s.from,
        chain_spec(s, k).unwrap().0.last() == s.visited[k],
    decreases k,
{
    if k > 0 {
        let p = s.links[k - 1].0.unwrap();
        lemma_chain_is_path(s, p as int);
        let (ids, edges) = chain_spec(s, p as int).unwrap();
        let nids = ids.push(s.visited[k]);
        let nedges = edges.push(s.links[k - 1].1);
        assert forall|i: int| 0 <= i < nedges.len() implies (#[trigger] nedges[i]).source == nids[i]
            && nedges[i].target == nids[i + 1] by {
            if i < edges.len() {
                assert(nedges[i] == edges[i]);
            } else {
                assert(nids[i] == ids.last());
            }
        }
    }
}

proof fn lemma_position_of(ids: Seq<Seq<char>>, id: Seq<char>)
    ensures
        position_of(ids, id) == -1 ==> forall|i: int| 0 <= i < ids.len() ==> ids[i] != id,
        position_of(ids, id) != -1 ==> 0 <= position_of(ids, id) < ids.len() && ids[position_of(
            ids,
            id,
        )] == id,
    decreases ids.len(),
{
    if ids.len() > 0 {
        lemma_position_of(ids.drop_last(), id);
        if ids.last() != id {
            assert forall|i: int| 0 <= i < ids.len() - 1 implies ids[i] == ids.drop_last()[i] by {}
        }
    }
}

/// Position of `id` among the strings, or `None`.
fn find_id(ids: &Vec<String>, id: &str) -> (r: Option<usize>)
    ensures
        match r {
            Some(p) => p as int == position_of(strings_view(ids@), id@),
            None => position_of(strings_view(ids@), id@) == -1,
        },
{
    let key = chars_of(id);
    let mut j = ids.len();
    assert(strings_view(ids@).take(j as int) =~= strings_view(ids@));
    while j > 0
        invariant
            j <= ids@.len(),
            key@ == id@,
            position_of(strings_view(ids@), id@) == position_of(strings_view(ids@).take(j as int), id@),
        decreases j,
    {
        let ghost t = strings_view(ids@).take(j as int);
        assert(t.drop_last() =~= strings_view(ids@).take(j - 1));
        assert(t.last() == ids@[j - 1]@);
        if chars_equal(chars_of(ids[j - 1].as_str()).as_slice(), key.as_slice()) {
            return Some(j - 1);
        }
        j = j - 1;
    }
    None
}

impl PathSearch {
    /// A search from `from` towards `to`: only `from` reached and queued.
    pub fn new(from: &str, to: &str) -> (r: Self)
        ensures
            r@ == start_spec(from@, to@),
            search_wf(r@),
    {
        let mut visited: Vec<String> = Vec::new();
        visited.push(from.to_owned());
        let r = PathSearch {
            from: from.to_owned(),
            to: to.to_owned(),
            visited,
            links: Vec::new(),
            queue_start: 0,
        };
        assert(r@.visited =~= seq![from@]);
        assert(r@.links =~= Seq::<(Option<usize>, EdgeView)>::empty());
        r
    }

    /// Whether the two ends are the same symbol (a path of one symbol).
    pub fn is_trivial(&self) -> (r: bool)
        ensures
            r == (self@.from == self@.to),
    {
        chars_equal(chars_of(self.from.as_str()).as_slice(), chars_of(self.to.as_str()).as_slice())
    }

    /// Takes the next breadth-first frontier off the queue (see
    /// [`frontier_spec`]).
    pub fn next_frontier(&mut self) -> (r: Option<Vec<String>>)
        requires
            search_wf(old(self)@),
        ensures
            search_wf(final(self)@),
            final(self)@ == frontier_spec(old(self)@).0,
            match r {
                Some(f) => frontier_spec(old(self)@).1 == Some(strings_view(f@)),
                None => frontier_spec(old(self)@).1 is None,
            },
    {
        if self.queue_start >= self.visited.len() || self.visited.len() >= PATH_SEARCH_VISIT_LIMIT {
            return None;
        }
        let waiting = self.visited.len() - self.queue_start;
        let budget = PATH_SEARCH_VISIT_LIMIT - self.visited.len();
        let n = if waiting < budget {
            waiting
        } else {
            budget
        };
        let mut frontier: Vec<String> = Vec::new();
        let mut i: usize = 0;
        while i < n
            invariant
                i <= n,
                self.queue_start + n <= self.visited@.len(),
                self.visited@.len() <= usize::MAX,
                strings_view(frontier@) == strings_view(self.visited@).subrange(
                    self.queue_start as int,
                    self.queue_start + i,
                ),
            decreases n - i,
        {
            let ghost before = strings_view(frontier@);
            let id = self.visited[self.queue_start + i].clone();
            assert(strings_view(self.visited@)[self.queue_start + i] == self.visited@[self.queue_start + i]@);
            let ghost idv = id@;
            frontier.push(id);
            assert(strings_view(frontier@) =~= before.push(idv));
            assert(strings_view(frontier@) =~= strings_view(self.visited@).subrange(
                self.queue_start as int,
                self.queue_start + i + 1,
            ));
            i = i + 1;
        }
        self.queue_start = self.queue_start + n;
        Some(frontier)
    }

    /// Absorbs the confirmed outgoing `calls` edges of the last frontier
    /// (see [`absorb_spec`]); `true` once the target is reached.
    pub fn absorb(&mut self, edges: &[CodeEdge]) -> (r: bool)
        requires
            search_wf(old(self)@),
        ensures
            search_wf(final(self)@),
            (final(self)@, r) == absorb_spec(old(self)@, edges_view(edges@)),
    {
        let ghost all = edges_view(edges@);
        let mut i: usize = 0;
        assert(all.skip(0) =~= all);
        while i < edges.len()
            invariant
                i <= edges@.len(),
                all == edges_view(edges@),
                search_wf(self@),
                absorb_spec(old(self)@, all) == absorb_spec(self@, all.skip(i as int)),
            decreases edges@.len() - i,
        {
            if self.visited.len() >= PATH_SEARCH_VISIT_LIMIT {
                return false;
            }
            let edge = &edges[i];
            proof {
                assert(all.skip(i as int)[0] == edge@);
                assert(all.skip(i as int).drop_first() =~= all.skip(i + 1));
                lemma_position_of(self@.visited, edge@.target);
                lemma_position_of(self@.visited, edge@.source);
            }
            if find_id(&self.visited, edge.target.as_str()).is_none() {
                let ghost s0 = self@;
                let parent = find_id(&self.visited, edge.source.as_str());
                self.visited.push(edge.target.clone());
                self.links.push((parent, edge.clone_edge()));
                proof {
                    assert(self@.visited =~= s0.visited.push(edge@.target));
                    assert(self@.links =~= s0.links.push((parent, edge@)));
                    assert(self@ == reach(s0, edge@));
                    let s1 = self@;
                    assert forall|a: int, b: int| 0 <= a < b < s1.visited.len() implies s1.visited[a]
                        != s1.visited[b] by {
                        if b == s1.visited.len() - 1 {
                            assert(s1.visited[a] == s0.visited[a]);
                        }
                    }
                    assert forall|k: int| 1 <= k < s1.visited.len() implies {
                        &&& (#[trigger] s1.links[k - 1]).1.target == s1.visited[k]
                        &&& match s1.links[k - 1].0 {
                            Some(p) => p < k && s1.visited[p as int] == s1.links[k - 1].1.source,
                            None => true,
                        }
                    } by {
                        if k < s1.visited.len() - 1 {
                            assert(s1.links[k - 1] == s0.links[k - 1]);
                            assert(s1.visited[k] == s0.visited[k]);
                            match s0.links[k - 1].0 {
                                Some(p) => assert(s1.visited[p as int] == s0.visited[p as int]),
                                None => {},
                            }
                        } else {
                            match parent {
                                Some(p) => assert(s1.visited[p as int] == s0.visited[p as int]),
                                None => {},
                            }
                        }
                    }
                }
                if chars_equal(chars_of(edge.target.as_str()).as_slice(), chars_of(self.to.as_str()).as_slice()) {
                    return true;
                }
            }
            i = i + 1;
        }
        false
    }

    /// The path that ends at the `k`-th reached symbol.
    fn chain(&self, k: usize) -> (r: Option<(Vec<String>, Vec<CodeEdge>)>)
        requires
            search_wf(self@),
        ensures
            match r {
                Some((ids, edges)) => chain_spec(self@, k as int) == Some(
                    (strings_view(ids@), edges_view(edges@)),
                ),
                None => chain_spec(self@, k as int) is None,
            },
        decreases k,
    {
        if k == 0 {
            let mut ids: Vec<String> = Vec::new();
            ids.push(self.from.clone());
            let edges: Vec<CodeEdge> = Vec::new();
            assert(strings_view(ids@) =~= seq![self@.from]);
            assert(edges_view(edges@) =~= Seq::<EdgeView>::empty());
            return Some((ids, edges));
        }
        if k >= self.visited.len() {
            return None;
        }
        let link = &self.links[k - 1];
        assert(self@.links[k - 1] == (link.0, link.1@));
        match link.0 {
            None => None,
            Some(p) => {
                if p >= k {
                    return None;
                }
                match self.chain(p) {
                    None => None,
                    Some((mut ids, mut edges)) => {
                        let ghost i0 = strings_view(ids@);
                        let ghost e0 = edges_view(edges@);
                        ids.push(self.visited[k].clone());
                        edges.push(link.1.clone_edge());
                        assert(strings_view(ids@) =~= i0.push(self@.visited[k as int]));
                        assert(edges_view(edges@) =~= e0.push(link.1@));
                        Some((ids, edges))
                    },
                }
            },
        }
    }

    /// The path to the target once it was reached: the symbol ids from the
    /// start to the target and the `calls` edges between them. An error when
    /// the target was not reached or a predecessor is missing.
    pub fn reconstruct(&self) -> (r: Result<(Vec<String>, Vec<CodeEdge>), crate::error::CodeFactsError>)
        requires
            search_wf(self@),
        ensures
            match r {
                Ok((ids, edges)) => position_of(self@.visited, self@.to) >= 0 && chain_spec(
                    self@,
                    position_of(self@.visited, self@.to),
                ) == Some((strings_view(ids@), edges_view(edges@))),
                Err(_) => position_of(self@.visited, self@.to) < 0 || chain_spec(
                    self@,
                    position_of(self@.visited, self@.to),
                ) is None,
            },
    {
        proof {
            lemma_position_of(self@.visited, self@.to);
        }
        match find_id(&self.visited, self.to.as_str()) {
            None => Err(
                crate::error::CodeFactsError::Other(
                    "path predecessor disappeared during reconstruction".to_owned(),
                ),
            ),
            Some(k) => match self.chain(k) {
                Some(path) => Ok(path),
                None => Err(
                    crate::error::CodeFactsError::Other(
                        "path predecessor disappeared during reconstruction".to_owned(),
                    ),
                ),
            },
        }
    }
}

/// A path that a search reconstructs starts at the search's start, ends at
/// its target, and each of its edges leads from one symbol of the path to
/// the next.
pub proof fn law_reconstructed_path_is_a_chain(s: SearchView, ids: Seq<Seq<char>>, edges: Seq<EdgeView>)
    requires
        search_wf(s),
        position_of(s.visited, s.to) >= 0,
        chain_spec(s, position_of(s.visited, s.to)) == Some((ids, edges)),
    ensures
        is_path(ids, edges),
        ids[0] == s.from,
        ids.last() == s.to,
{
    lemma_position_of(s.visited, s.to);
    lemma_chain_is_path(s, position_of(s.visited, s.to));
}


// ---------------------------------------------------------------------------
// Breadth-first paths are shortest
// ---------------------------------------------------------------------------
/// Whether `g` holds an edge from `u` to `v`.
pub open spec fn edge_in(g: Seq<EdgeView>, u: Seq<char>, v: Seq<char>) -> bool {
    exists|i: int| 0 <= i < g.len() && (#[trigger] g[i]).source == u && g[i].target == v
}

/// Whether `ids` is a walk along edges of `g`.
pub open spec fn walk_in(g: Seq<EdgeView>, ids: Seq<Seq<char>>) -> bool {
    &&& ids.len() >= 1
    &&& forall|i: int| 0 <= i < ids.len() - 1 ==> edge_in(g, #[trigger] ids[i], ids[i + 1])
}

/// The edges of `g` that leave one of `ids`, in order.
pub open spec fn out_edges(g: Seq<EdgeView>, ids: Seq<Seq<char>>) -> Seq<EdgeView>
    decreases g.len(),
{
    if g.len() == 0 {
        Seq::empty()
    } else {
        let rest = out_edges(g.drop_last(), ids);
        if ids.contains(g.last().source) {
            rest.push(g.last())
        } else {
            rest
        }
    }
}

/// `t` continues `s`: the same ends and queue start, and what `s` reached
/// and how, kept in front.
pub open spec fn extends(s: SearchView, t: SearchView) -> bool {
    &&& t.from == s.from
    &&& t.to == s.to
    &&& s.visited.len() <= t.visited.len()
    &&& t.visited.take(s.visited.len() as int) == s.visited
    &&& s.links.len() <= t.links.len()
    &&& t.links.take(s.links.len() as int) == s.links
}

/// The number of edges of the chain to the `k`-th reached symbol.
pub open spec fn chain_len(s: SearchView, k: int) -> int {
    chain_spec(s, k)->Some_0.1.len() as int
}

proof fn lemma_chain_extends(s: SearchView, t: SearchView, k: int)
    requires
        extends(s, t),
        search_wf(s),
        0 <= k < s.visited.len(),
    ensures
        chain_spec(t, k) == chain_spec(s, k),
    decreases k,
{
    if k > 0 {
        assert(t.visited[k] == t.visited.take(s.visited.len() as int)[k]);
        assert(t.links[k - 1] == t.links.take(s.links.len() as int)[k - 1]);
        match s.links[k - 1].0 {
            Some(p) => {
                if p < k {
                    lemma_chain_extends(s, t, p as int);
                }
            },
            None => {},
        }
    }
}

/// Absorbing edges whose sources were reached: what was reached stays; each
/// newly reached symbol is the target of one of the edges, linked to where
/// its source was reached before; without reaching the target or the visit
/// limit, every target is reached.
proof fn lemma_absorb(s: SearchView, edges: Seq<EdgeView>)
    requires
        forall|j: int| 0 <= j < edges.len() ==> s.visited.contains(#[trigger] edges[j].source),
        s.links.len() == s.visited.len() - 1,
        s.visited.len() >= 1,
    ensures
        ({
            let (t, found) = absorb_spec(s, edges);
            &&& extends(s, t)
            &&& t.queue_start == s.queue_start
            &&& t.links.len() == t.visited.len() - 1
            &&& forall|k: int|
                s.visited.len() <= k < t.visited.len() ==> {
                    &&& (#[trigger] t.links[k - 1]).1.target == t.visited[k]
                    &&& edges.contains(t.links[k - 1].1)
                    &&& !s.visited.contains(t.visited[k])
                    &&& t.links[k - 1].0 matches Some(p) && p < s.visited.len() && s.visited[p as int]
                        == t.links[k - 1].1.source
                }
            &&& found ==> t.visited.last() == s.to && t.visited.len() > s.visited.len()
            &&& (!found && t.visited.len() < PATH_SEARCH_VISIT_LIMIT) ==> forall|j: int|
                0 <= j < edges.len() ==> t.visited.contains(#[trigger] edges[j].target)
        }),
    decreases edges.len(),
{
    if edges.len() == 0 || s.visited.len() >= PATH_SEARCH_VISIT_LIMIT {
        assert(s.visited.take(s.visited.len() as int) =~= s.visited);
        assert(s.links.take(s.links.len() as int) =~= s.links);
    } else {
        let e = edges[0];
        let rest = edges.drop_first();
        assert forall|j: int| 0 <= j < rest.len() implies s.visited.contains(#[trigger] rest[j].source) by {
            assert(rest[j] == edges[j + 1]);
        }
        lemma_position_of(s.visited, e.target);
        lemma_position_of(s.visited, e.source);
        if position_of(s.visited, e.target) >= 0 {
            lemma_absorb(s, rest);
            let (t, found) = absorb_spec(s, rest);
            assert forall|k: int| s.visited.len() <= k < t.visited.len() implies edges.contains(
                (#[trigger] t.links[k - 1]).1,
            ) by {
                let jj = choose|jj: int| 0 <= jj < rest.len() && rest[jj] == t.links[k - 1].1;
                assert(edges[jj + 1] == rest[jj]);
            }
            if !found && t.visited.len() < PATH_SEARCH_VISIT_LIMIT {
                assert forall|j: int| 0 <= j < edges.len() implies t.visited.contains(#[trigger] edges[j].target) by {
                    if j == 0 {
                        let q = position_of(s.visited, e.target);
                        assert(t.visited.take(s.visited.len() as int)[q] == s.visited[q]);
                        assert(t.visited[q] == e.target);
                    } else {
                        assert(edges[j] == rest[j - 1]);
                    }
                }
            }
        } else {
            let s2 = reach(s, e);
            assert(s2.visited.take(s.visited.len() as int) =~= s.visited);
            assert(s2.links.take(s.links.len() as int) =~= s.links);
            let p = position_of(s.visited, e.source);
            assert(s.visited.contains(e.source));
            assert(p >= 0);
            if e.target == s.to {
                assert(s2.visited.last() == s.to);
            } else {
                assert forall|j: int| 0 <= j < rest.len() implies s2.visited.contains(#[trigger] rest[j].source) by {
                    assert(rest[j] == edges[j + 1]);
                    let q = choose|q: int| 0 <= q < s.visited.len() && s.visited[q] == rest[j].source;
                    assert(s2.visited[q] == s.visited[q]);
                }
                lemma_absorb(s2, rest);
                let (t, found) = absorb_spec(s2, rest);
                assert(t.visited.take(s.visited.len() as int) =~= t.visited.take(s2.visited.len() as int).take(
                    s.visited.len() as int,
                ));
                assert(t.links.take(s.links.len() as int) =~= t.links.take(s2.links.len() as int).take(
                    s.links.len() as int,
                ));
                assert forall|k: int| s.visited.len() <= k < t.visited.len() implies {
                    &&& (#[trigger] t.links[k - 1]).1.target == t.visited[k]
                    &&& edges.contains(t.links[k - 1].1)
                    &&& !s.visited.contains(t.visited[k])
                    &&& t.links[k - 1].0 matches Some(pp) && pp < s.visited.len() && s.visited[pp as int]
                        == t.links[k - 1].1.source
                } by {
                    if k == s.visited.len() {
                        assert(t.visited[k] == t.visited.take(s2.visited.len() as int)[k]);
                        assert(t.links[k - 1] == t.links.take(s2.links.len() as int)[k - 1]);
                        assert(t.visited[k] == e.target);
                        assert(edges[0] == e);
                    } else {
                        let pp = t.links[k - 1].0->Some_0;
                        assert(!s2.visited.contains(t.visited[k]));
                        let le = t.links[k - 1].1;
                        assert(rest.contains(le));
                        let jj = choose|jj: int| 0 <= jj < rest.len() && rest[jj] == le;
                        assert(edges[jj + 1] == le);
                        assert(s.visited.contains(rest[jj].source));
                        if pp >= s.visited.len() {
                            assert(s2.visited[pp as int] == e.target);
                        }
                        assert(s2.visited[pp as int] == s.visited[pp as int]);
                        if s.visited.contains(t.visited[k]) {
                            let q = choose|q: int| 0 <= q < s.visited.len() && s.visited[q] == t.visited[k];
                            assert(s2.visited[q] == s.visited[q]);
                        }
                    }
                }
                if !found && t.visited.len() < PATH_SEARCH_VISIT_LIMIT {
                    assert forall|j: int| 0 <= j < edges.len() implies t.visited.contains(#[trigger] edges[j].target) by {
                        if j == 0 {
                            let n = s.visited.len() as int;
                            assert(t.visited.take(s2.visited.len() as int)[n] == s2.visited[n]);
                            assert(t.visited[n] == e.target);
                        } else {
                            assert(edges[j] == rest[j - 1]);
                        }
                    }
                }
            }
        }
    }
}


proof fn lemma_out_edges(g: Seq<EdgeView>, ids: Seq<Seq<char>>)
    ensures
        forall|j: int| 0 <= j < out_edges(g, ids).len() ==> ids.contains(#[trigger] out_edges(g, ids)[j].source),
        forall|j: int| 0 <= j < g.len() && ids.contains(#[trigger] g[j].source) ==> out_edges(g, ids).contains(g[j]),
    decreases g.len(),
{
    if g.len() > 0 {
        lemma_out_edges(g.drop_last(), ids);
        let rest = out_edges(g.drop_last(), ids);
        assert forall|j: int| 0 <= j < g.len() && ids.contains(#[trigger] g[j].source) implies out_edges(g, ids).contains(
            g[j],
        ) by {
            if j < g.len() - 1 {
                assert(g[j] == g.drop_last()[j]);
                let q = choose|q: int| 0 <= q < rest.len() && rest[q] == g[j];
                assert(out_edges(g, ids)[q] == rest[q]);
            } else {
                assert(out_edges(g, ids)[rest.len() as int] == g[j]);
            }
        }
    }
}

/// The breadth-first invariant of a search over the graph `g` whose queue
/// holds the symbols at depth `d`: every reached symbol has a chain, those
/// in the queue have `d` edges; every edge of `g` that leaves a symbol taken
/// off the queue ends at a reached symbol; every symbol that a walk of at
/// most `d` edges reaches from the start was reached.
pub open spec fn layered(s: SearchView, g: Seq<EdgeView>, d: nat) -> bool {
    &&& search_wf(s)
    &&& forall|k: int| 0 <= k < s.visited.len() ==> (#[trigger] chain_spec(s, k)) is Some
    &&& forall|k: int| s.queue_start <= k < s.visited.len() ==> #[trigger] chain_len(s, k) == d
    &&& forall|k: int, j: int|
        0 <= k < s.queue_start && 0 <= j < g.len() && (#[trigger] g[j]).source == #[trigger] s.visited[k]
            ==> s.visited.contains(g[j].target)
    &&& forall|ids: Seq<Seq<char>>|
        walk_in(g, ids) && ids[0] == s.from && ids.len() - 1 <= d ==> s.visited.contains(#[trigger] ids.last())
}

/// A new search is layered at depth 0.
pub proof fn lemma_layered_start(from: Seq<char>, to: Seq<char>, g: Seq<EdgeView>)
    ensures
        layered(start_spec(from, to), g, 0),
{
    let s = start_spec(from, to);
    assert(chain_spec(s, 0) == Some((seq![from], Seq::<EdgeView>::empty())));
    assert forall|ids: Seq<Seq<char>>|
        walk_in(g, ids) && ids[0] == s.from && ids.len() - 1 <= 0 implies s.visited.contains(#[trigger] ids.last()) by {
        assert(s.visited[0] == ids.last());
    }
}

/// The frontier of a layered search whose whole queue fits the visit
/// budget, absorbed with every edge of `g` that leaves it: it reaches the
/// target by a chain of `d + 1` edges, which no walk in `g` undercuts; or,
/// while the visit limit is not reached, it leaves a search layered at
/// depth `d + 1`.
pub proof fn lemma_layered_round(s: SearchView, g: Seq<EdgeView>, d: nat)
    requires
        layered(s, g, d),
        s.queue_start < s.visited.len(),
        s.visited.len() - s.queue_start <= PATH_SEARCH_VISIT_LIMIT - s.visited.len(),
        search_wf(
            absorb_spec(frontier_spec(s).0, out_edges(g, frontier_spec(s).1->Some_0)).0,
        ),
        absorb_spec(frontier_spec(s).0, out_edges(g, frontier_spec(s).1->Some_0)).0.visited.len()
            < PATH_SEARCH_VISIT_LIMIT,
    ensures
        ({
            let (t, found) = absorb_spec(frontier_spec(s).0, out_edges(g, frontier_spec(s).1->Some_0));
            &&& found ==> {
                &&& position_of(t.visited, t.to) == t.visited.len() - 1
                &&& chain_spec(t, t.visited.len() - 1) is Some
                &&& chain_len(t, t.visited.len() - 1) == d + 1
                &&& forall|ids: Seq<Seq<char>>|
                    walk_in(g, ids) && ids[0] == t.from && #[trigger] ids.last() == t.to ==> ids.len() - 1 >= d + 1
            }
            &&& !found ==> layered(t, g, d + 1)
        }),
{
    let n = s.visited.len() as int;
    let qs = s.queue_start as int;
    let (s1, fr) = frontier_spec(s);
    let f = fr->Some_0;
    assert(f == s.visited.subrange(qs, n));
    assert(s1 == SearchView { queue_start: n as nat, ..s });
    let e = out_edges(g, f);
    lemma_out_edges(g, f);
    assert forall|j: int| 0 <= j < e.len() implies s1.visited.contains(#[trigger] e[j].source) by {
        let q = choose|q: int| 0 <= q < f.len() && f[q] == e[j].source;
        assert(s.visited[qs + q] == f[q]);
    }
    lemma_absorb(s1, e);
    let (t, found) = absorb_spec(s1, e);
    assert(s1.visited.take(n) =~= s.visited);
    assert(s1.links.take(s.links.len() as int) =~= s.links);
    assert(extends(s, s1));
    // Chains of the symbols reached before are kept.
    assert forall|k: int| 0 <= k < n implies #[trigger] chain_spec(t, k) == chain_spec(s, k) by {
        lemma_chain_extends(s, s1, k);
        lemma_chain_extends(s1, t, k);
    }
    // Each newly reached symbol extends a chain from the frontier.
    assert forall|k: int| n <= k < t.visited.len() implies (#[trigger] chain_spec(t, k)) is Some && chain_len(t, k)
        == d + 1 by {
        let p = t.links[k - 1].0->Some_0 as int;
        let src = t.links[k - 1].1.source;
        assert(e.contains(t.links[k - 1].1));
        let jj = choose|jj: int| 0 <= jj < e.len() && e[jj] == t.links[k - 1].1;
        assert(f.contains(e[jj].source));
        let q = choose|q: int| 0 <= q < f.len() && f[q] == src;
        assert(s.visited[qs + q] == src);
        assert(s.visited[p] == src);
        assert(p == qs + q);
        assert(chain_spec(t, p) == chain_spec(s, p));
        assert(chain_len(s, p) == d);
    }
    if found {
        let last = t.visited.len() - 1;
        assert(t.visited.last() == t.to);
        assert(!s.visited.contains(t.visited[last]));
        assert forall|ids: Seq<Seq<char>>| walk_in(g, ids) && ids[0] == t.from && #[trigger] ids.last() == t.to implies ids.len()
            - 1 >= d + 1 by {
            if ids.len() - 1 <= d {
                assert(s.visited.contains(ids.last()));
            }
        }
    } else {
        assert forall|k: int, j: int|
            0 <= k < t.queue_start && 0 <= j < g.len() && (#[trigger] g[j]).source == #[trigger] t.visited[k]
                implies t.visited.contains(g[j].target) by {
            assert(t.visited[k] == t.visited.take(n)[k]);
            assert(t.visited[k] == s.visited[k]);
            if k < qs {
                let q = choose|q: int| 0 <= q < s.visited.len() && s.visited[q] == g[j].target;
                assert(t.visited[q] == t.visited.take(n)[q]);
            } else {
                assert(f[k - qs] == s.visited[k]);
                assert(e.contains(g[j]));
                let jj = choose|jj: int| 0 <= jj < e.len() && e[jj] == g[j];
            }
        }
        assert forall|ids: Seq<Seq<char>>|
            walk_in(g, ids) && ids[0] == t.from && ids.len() - 1 <= d + 1 implies t.visited.contains(#[trigger] ids.last()) by {
            if ids.len() - 1 <= d {
                let q = choose|q: int| 0 <= q < s.visited.len() && s.visited[q] == ids.last();
                assert(t.visited[q] == t.visited.take(n)[q]);
            } else {
                let pre = ids.take(ids.len() - 1);
                assert(walk_in(g, pre)) by {
                    assert forall|i: int| 0 <= i < pre.len() - 1 implies edge_in(g, #[trigger] pre[i], pre[i + 1]) by {
                        assert(pre[i] == ids[i] && pre[i + 1] == ids[i + 1]);
                    }
                }
                assert(pre[0] == ids[0]);
                let u = pre.last();
                assert(s.visited.contains(u));
                let k = choose|k: int| 0 <= k < s.visited.len() && s.visited[k] == u;
                let i = ids.len() - 2;
                assert(ids[i] == u);
                assert(edge_in(g, ids[i], ids[i + 1]));
                let j = choose|j: int| 0 <= j < g.len() && (#[trigger] g[j]).source == ids[i] && g[j].target == ids[i + 1];
                if k < qs {
                    let q = choose|q: int| 0 <= q < s.visited.len() && s.visited[q] == g[j].target;
                    assert(t.visited[q] == t.visited.take(n)[q]);
                } else {
                    assert(f[k - qs] == s.visited[k]);
                    assert(e.contains(g[j]));
                    let jj = choose|jj: int| 0 <= jj < e.len() && e[jj] == g[j];
                    assert(t.visited.contains(e[jj].target));
                }
            }
        }
    }
}

} // verus!
