//! The decisions of one indexing run: which files are collected and which
//! are parsed again, which stored files are gone, which names need their
//! relationships bound again, and which follow-up steps the run takes.
use vstd::prelude::*;
use crate::text::{chars_lt, chars_of, lemma_seq_lt_irreflexive, lemma_seq_lt_total, lemma_seq_lt_transitive, seq_lt, str_eq};
use crate::service::IndexResult;
use crate::types::{nodes_view, strings_view, CodeNode, NodeView};

verus! {

/// Files larger than this many bytes (generated files, minified bundles)
/// are not indexed.
pub const MAX_FILE_SIZE: u64 = 2097152;

/// Directory names skipped by every walk, whatever the ignore files say.
pub open spec fn always_skipped_dir_spec(name: Seq<char>) -> bool {
    ||| name == "node_modules"@
    ||| name == ".git"@
    ||| name == "vendor"@
    ||| name == "third_party"@
    ||| name == "__pycache__"@
    ||| name == ".venv"@
    ||| name == "venv"@
    ||| name == "target"@
    ||| name == "build"@
    ||| name == "dist"@
    ||| name == ".next"@
    ||| name == ".nuxt"@
    ||| name == ".output"@
    ||| name == ".cache"@
}

/// Whether a directory of this name is always skipped.
pub fn is_always_skipped_dir(name: &str) -> (r: bool)
    ensures
        r == always_skipped_dir_spec(name@),
{
    str_eq(name, "node_modules") || str_eq(name, ".git") || str_eq(name, "vendor") || str_eq(
        name,
        "third_party",
    ) || str_eq(name, "__pycache__") || str_eq(name, ".venv") || str_eq(name, "venv") || str_eq(
        name,
        "target",
    ) || str_eq(name, "build") || str_eq(name, "dist") || str_eq(name, ".next") || str_eq(
        name,
        ".nuxt",
    ) || str_eq(name, ".output") || str_eq(name, ".cache")
}

/// Whether the walk descends into (or yields) an entry: a directory whose
/// name is known and always skipped is left out; everything else is kept.
pub open spec fn keeps_entry_spec(is_dir: bool, name: Option<Seq<char>>) -> bool {
    match name {
        Some(n) => !(is_dir && always_skipped_dir_spec(n)),
        None => true,
    }
}

/// The walk's entry filter (see [`keeps_entry_spec`]).
pub fn keeps_entry(is_dir: bool, name: Option<&str>) -> (r: bool)
    ensures
        r == keeps_entry_spec(is_dir, match name { Some(n) => Some(n@), None => None }),
{
    match name {
        Some(n) => !(is_dir && is_always_skipped_dir(n)),
        None => true,
    }
}

/// Whether a walked entry is collected: a regular file of a supported
/// language whose size is known and at most [`MAX_FILE_SIZE`].
pub open spec fn collects_file_spec(is_file: bool, supported: bool, size: Option<u64>) -> bool {
    &&& is_file
    &&& supported
    &&& size matches Some(s) && s <= MAX_FILE_SIZE
}

/// The walk's file filter (see [`collects_file_spec`]).
pub fn collects_file(is_file: bool, supported: bool, size: Option<u64>) -> (r: bool)
    ensures
        r == collects_file_spec(is_file, supported, size),
{
    is_file && supported && match size {
        Some(s) => s <= MAX_FILE_SIZE,
        None => false,
    }
}

/// Whether an incremental run may leave a file alone: its stored content
/// hash equals the hash of its current text.
pub open spec fn unchanged_spec(incremental: bool, stored_hash: Option<Seq<char>>, content_hash: Seq<char>) -> bool {
    incremental && stored_hash == Some(content_hash)
}

/// Whether a file is skipped as unchanged (see [`unchanged_spec`]).
pub fn is_unchanged(incremental: bool, stored_hash: Option<&str>, content_hash: &str) -> (r: bool)
    ensures
        r == unchanged_spec(incremental, match stored_hash { Some(h) => Some(h@), None => None }, content_hash@),
{
    incremental && match stored_hash {
        Some(h) => str_eq(h, content_hash),
        None => false,
    }
}

/// The stored paths that the current walk no longer yields, in stored order.
pub open spec fn stale_paths_spec(stored: Seq<Seq<char>>, current: Seq<Seq<char>>) -> Seq<Seq<char>>
    decreases stored.len(),
{
    if stored.len() == 0 {
        Seq::empty()
    } else {
        let rest = stale_paths_spec(stored.drop_last(), current);
        if current.contains(stored.last()) {
            rest
        } else {
            rest.push(stored.last())
        }
    }
}

fn contains_path(paths: &[String], p: &str) -> (r: bool)
    ensures
        r == strings_view(paths@).contains(p@),
{
    let ghost view = strings_view(paths@);
    let mut i: usize = 0;
    while i < paths.len()
        invariant
            i <= paths.len(),
            view == strings_view(paths@),
            forall|j: int| 0 <= j < i ==> view[j] != p@,
        decreases paths.len() - i,
    {
        if str_eq(paths[i].as_str(), p) {
            assert(view[i as int] == p@);
            return true;
        }
        i = i + 1;
    }
    proof {
        if view.contains(p@) {
            let j = choose|j: int| 0 <= j < view.len() && view[j] == p@;
            assert(view[j] != p@);
        }
    }
    false
}

/// The files whose facts a run removes: those stored but no longer walked.
pub fn stale_paths(stored: &[String], current: &[String]) -> (r: Vec<String>)
    ensures
        strings_view(r@) == stale_paths_spec(strings_view(stored@), strings_view(current@)),
{
    let ghost sv = strings_view(stored@);
    let ghost cv = strings_view(current@);
    let mut r: Vec<String> = Vec::new();
    let mut i: usize = 0;
    while i < stored.len()
        invariant
            i <= stored.len(),
            sv == strings_view(stored@),
            cv == strings_view(current@),
            strings_view(r@) == stale_paths_spec(sv.take(i as int), cv),
        decreases stored.len() - i,
    {
        assert(sv.take(i as int + 1).drop_last() =~= sv.take(i as int));
        if !contains_path(current, stored[i].as_str()) {
            r.push(stored[i].clone());
            assert(strings_view(r@) =~= stale_paths_spec(sv.take(i as int), cv).push(
                sv[i as int],
            ));
        }
        i = i + 1;
    }
    assert(sv.take(stored.len() as int) =~= sv);
    r
}

/// Names carried by nodes, in order.
pub open spec fn node_names(nodes: Seq<NodeView>) -> Seq<Seq<char>> {
    nodes.map_values(|n: NodeView| n.name)
}

/// The nodes that lie in one of `files`, in order.
pub open spec fn nodes_in_files(nodes: Seq<NodeView>, files: Seq<Seq<char>>) -> Seq<NodeView>
    decreases nodes.len(),
{
    if nodes.len() == 0 {
        Seq::empty()
    } else {
        let rest = nodes_in_files(nodes.drop_last(), files);
        if files.contains(nodes.last().file_path) {
            rest.push(nodes.last())
        } else {
            rest
        }
    }
}

/// The nodes that lie in none of `files`, in order.
pub open spec fn nodes_outside_files(nodes: Seq<NodeView>, files: Seq<Seq<char>>) -> Seq<NodeView>
    decreases nodes.len(),
{
    if nodes.len() == 0 {
        Seq::empty()
    } else {
        let rest = nodes_outside_files(nodes.drop_last(), files);
        if files.contains(nodes.last().file_path) {
            rest
        } else {
            rest.push(nodes.last())
        }
    }
}

/// Whether each name strictly precedes the next (sorted, no repeats).
pub open spec fn strictly_ascending(s: Seq<Seq<char>>) -> bool {
    forall|i: int, j: int| 0 <= i < j < s.len() ==> seq_lt(#[trigger] s[i], #[trigger] s[j])
}

/// Whether `x` names a definition that a run added, moved or removed: a
/// symbol of a removed file, a symbol that an incremental run held before
/// for a file it parsed again, or a symbol that the run parsed.
pub open spec fn changed_name_spec(
    removed: Seq<NodeView>,
    existing: Seq<NodeView>,
    reparsed: Seq<Seq<char>>,
    parsed: Seq<NodeView>,
    incremental: bool,
    x: Seq<char>,
) -> bool {
    ||| node_names(removed).contains(x)
    ||| incremental && node_names(nodes_in_files(existing, reparsed)).contains(x)
    ||| node_names(parsed).contains(x)
}

proof fn lemma_insert_contains(s: Seq<Seq<char>>, i: int, v: Seq<char>, x: Seq<char>)
    requires
        0 <= i <= s.len(),
    ensures
        s.insert(i, v).contains(x) <==> (x == v || s.contains(x)),
{
    let t = s.insert(i, v);
    if x == v {
        assert(t[i] == v);
    }
    if s.contains(x) {
        let k = choose|k: int| 0 <= k < s.len() && s[k] == x;
        if k < i {
            assert(t[k] == x);
        } else {
            assert(t[k + 1] == x);
        }
    }
    if t.contains(x) && x != v {
        let k = choose|k: int| 0 <= k < t.len() && t[k] == x;
        if k < i {
            assert(s[k] == x);
        } else if k > i {
            assert(s[k - 1] == x);
        }
    }
}

/// Adds a name to a strictly ascending list of names, unless it is there.
fn insert_name(names: &mut Vec<String>, name: &str)
    requires
        strictly_ascending(strings_view(old(names)@)),
    ensures
        strictly_ascending(strings_view(final(names)@)),
        forall|x: Seq<char>|
            strings_view(final(names)@).contains(x) <==> (x == name@ || strings_view(old(names)@).contains(x)),
{
    let ghost s = strings_view(names@);
    let nm = chars_of(name);
    let mut i: usize = 0;
    while i < names.len() && chars_lt(chars_of(names[i].as_str()).as_slice(), nm.as_slice())
        invariant
            i <= names.len(),
            s == strings_view(names@),
            strictly_ascending(s),
            nm@ == name@,
            forall|j: int| 0 <= j < i ==> seq_lt(#[trigger] s[j], name@),
        decreases names.len() - i,
    {
        i = i + 1;
    }
    if i < names.len() && str_eq(names[i].as_str(), name) {
        assert(s[i as int] == name@);
        return;
    }
    names.insert(i, name.to_owned());
    proof {
        let t = strings_view(names@);
        assert(t =~= s.insert(i as int, name@));
        if i < s.len() {
            assert(!seq_lt(s[i as int], name@));
            assert(s[i as int] != name@);
            lemma_seq_lt_total(s[i as int], name@);
        }
        assert forall|a: int, b: int| 0 <= a < b < t.len() implies seq_lt(#[trigger] t[a], #[trigger] t[b]) by {
            if b < i {
                assert(t[a] == s[a] && t[b] == s[b]);
            } else if b == i {
                assert(t[a] == s[a]);
            } else if a == i {
                assert(t[b] == s[b - 1]);
                if b - 1 > i {
                    assert(seq_lt(s[i as int], s[b - 1]));
                    lemma_seq_lt_transitive(name@, s[i as int], s[b - 1]);
                }
            } else if a < i {
                assert(t[a] == s[a] && t[b] == s[b - 1]);
                assert(seq_lt(s[a], name@));
                if b - 1 >= i {
                    if b - 1 > i {
                        assert(seq_lt(s[i as int], s[b - 1]));
                        lemma_seq_lt_transitive(name@, s[i as int], s[b - 1]);
                    }
                    lemma_seq_lt_transitive(s[a], name@, s[b - 1]);
                }
            } else {
                assert(t[a] == s[a - 1] && t[b] == s[b - 1]);
            }
        }
        assert forall|x: Seq<char>| t.contains(x) <==> (x == name@ || s.contains(x)) by {
            lemma_insert_contains(s, i as int, name@, x);
        }
    }
}

/// `nodes`, or with `files` those among them that lie in one of `files`.
pub open spec fn selected_nodes(nodes: Seq<NodeView>, files: Option<Seq<Seq<char>>>) -> Seq<NodeView> {
    match files {
        Some(f) => nodes_in_files(nodes, f),
        None => nodes,
    }
}

/// Adds the names of the selected nodes (see [`selected_nodes`]) to a
/// strictly ascending list of names.
fn insert_node_names(names: &mut Vec<String>, nodes: &[CodeNode], files: Option<&[String]>)
    requires
        strictly_ascending(strings_view(old(names)@)),
    ensures
        strictly_ascending(strings_view(final(names)@)),
        forall|x: Seq<char>|
            strings_view(final(names)@).contains(x) <==> (strings_view(old(names)@).contains(x) || node_names(
                selected_nodes(
                    nodes_view(nodes@),
                    match files {
                        Some(f) => Some(strings_view(f@)),
                        None => None,
                    },
                ),
            ).contains(x)),
{
    let ghost start = strings_view(names@);
    let ghost nv = nodes_view(nodes@);
    let ghost fs = match files {
        Some(f) => Some(strings_view(f@)),
        None => None,
    };
    let ghost mut seen: Seq<Seq<char>> = Seq::empty();
    assert(nv.take(0) =~= Seq::<NodeView>::empty());
    assert(node_names(selected_nodes(nv.take(0), fs)) =~= seen);
    let mut i: usize = 0;
    while i < nodes.len()
        invariant
            i <= nodes.len(),
            nv == nodes_view(nodes@),
            fs == match files {
                Some(f) => Some(strings_view(f@)),
                None => None::<Seq<Seq<char>>>,
            },
            seen == node_names(selected_nodes(nv.take(i as int), fs)),
            strictly_ascending(strings_view(names@)),
            forall|x: Seq<char>| #[trigger]
                strings_view(names@).contains(x) <==> (start.contains(x) || seen.contains(x)),
        decreases nodes.len() - i,
    {
        let ghost prev = selected_nodes(nv.take(i as int), fs);
        assert(nv.take(i + 1).drop_last() =~= nv.take(i as int));
        assert(nv.take(i + 1).last() == nv[i as int]);
        assert(nv.take(i + 1) =~= nv.take(i as int).push(nv[i as int]));
        assert(nv[i as int].file_path == nodes@[i as int].file_path@);
        let wanted = match files {
            Some(f) => contains_path(f, nodes[i].file_path.as_str()),
            None => true,
        };
        if wanted {
            let ghost before = strings_view(names@);
            assert(nv[i as int].name == nodes@[i as int].name@);
            insert_name(names, nodes[i].name.as_str());
            proof {
                assert(selected_nodes(nv.take(i + 1), fs) == prev.push(nv[i as int]));
                let after = seen.push(nv[i as int].name);
                assert(node_names(prev.push(nv[i as int])) =~= after);
                assert forall|x: Seq<char>| #[trigger]
                    strings_view(names@).contains(x) <==> (start.contains(x) || after.contains(x)) by {
                    assert(before.contains(x) <==> (start.contains(x) || seen.contains(x)));
                    if x == nv[i as int].name {
                        assert(after[seen.len() as int] == x);
                    }
                    if seen.contains(x) {
                        let k = choose|k: int| 0 <= k < seen.len() && seen[k] == x;
                        assert(after[k] == x);
                    }
                    if after.contains(x) && x != nv[i as int].name {
                        let k = choose|k: int| 0 <= k < after.len() && after[k] == x;
                        assert(seen[k] == x);
                    }
                }
                seen = after;
            }
        } else {
            assert(selected_nodes(nv.take(i + 1), fs) == prev);
        }
        i = i + 1;
    }
    assert(nv.take(nodes.len() as int) =~= nv);
}

/// The names whose static relationships an incremental run binds again,
/// sorted and without repeats (see [`changed_name_spec`]).
pub fn changed_target_names(
    removed: &[CodeNode],
    existing: &[CodeNode],
    reparsed: &[String],
    parsed: &[CodeNode],
    incremental: bool,
) -> (r: Vec<String>)
    ensures
        strictly_ascending(strings_view(r@)),
        forall|x: Seq<char>|
            strings_view(r@).contains(x) <==> changed_name_spec(
                nodes_view(removed@),
                nodes_view(existing@),
                strings_view(reparsed@),
                nodes_view(parsed@),
                incremental,
                x,
            ),
{
    let mut names: Vec<String> = Vec::new();
    assert(strings_view(names@) =~= Seq::<Seq<char>>::empty());
    insert_node_names(&mut names, removed, None);
    if incremental {
        insert_node_names(&mut names, existing, Some(reparsed));
    }
    insert_node_names(&mut names, parsed, None);
    names
}

/// The symbols that the cross-file index of a run is built from: every
/// symbol it parsed and, in an incremental run, every symbol held before for
/// a file it did not parse again.
pub open spec fn pass_nodes_spec(
    parsed: Seq<NodeView>,
    existing: Seq<NodeView>,
    reparsed: Seq<Seq<char>>,
    incremental: bool,
) -> Seq<NodeView> {
    if incremental {
        parsed + nodes_outside_files(existing, reparsed)
    } else {
        parsed
    }
}

/// The symbols of a run's cross-file index (see [`pass_nodes_spec`]).
pub fn pass_nodes(parsed: &[CodeNode], existing: &[CodeNode], reparsed: &[String], incremental: bool) -> (r:
    Vec<CodeNode>)
    ensures
        nodes_view(r@) == pass_nodes_spec(
            nodes_view(parsed@),
            nodes_view(existing@),
            strings_view(reparsed@),
            incremental,
        ),
{
    let mut r: Vec<CodeNode> = Vec::new();
    let mut i: usize = 0;
    while i < parsed.len()
        invariant
            i <= parsed.len(),
            nodes_view(r@) == nodes_view(parsed@.take(i as int)),
        decreases parsed.len() - i,
    {
        let c = parsed[i].copy();
        let ghost before = r@;
        r.push(c);
        proof {
            assert(nodes_view(r@) =~= nodes_view(before).push(c@));
            assert(parsed@.take(i + 1) =~= parsed@.take(i as int).push(parsed@[i as int]));
            assert(nodes_view(parsed@.take(i + 1)) =~= nodes_view(parsed@.take(i as int)).push(parsed@[i as int]@));
        }
        i = i + 1;
    }
    assert(parsed@.take(parsed.len() as int) =~= parsed@);
    if incremental {
        let ghost ev = nodes_view(existing@);
        let ghost fv = strings_view(reparsed@);
        let mut k: usize = 0;
        while k < existing.len()
            invariant
                k <= existing.len(),
                ev == nodes_view(existing@),
                fv == strings_view(reparsed@),
                nodes_view(r@) == nodes_view(parsed@) + nodes_outside_files(ev.take(k as int), fv),
            decreases existing.len() - k,
        {
            assert(ev.take(k + 1).drop_last() =~= ev.take(k as int));
            assert(ev.take(k + 1).last() == ev[k as int]);
            assert(ev[k as int].file_path == existing@[k as int].file_path@);
            if !contains_path(reparsed, existing[k].file_path.as_str()) {
                let c = existing[k].copy();
                let ghost before = r@;
                r.push(c);
                proof {
                    assert(nodes_view(r@) =~= nodes_view(before).push(c@));
                    assert(nodes_outside_files(ev.take(k + 1), fv) == nodes_outside_files(ev.take(k as int), fv).push(
                        ev[k as int],
                    ));
                    assert(nodes_view(r@) =~= nodes_view(parsed@) + nodes_outside_files(ev.take(k + 1), fv));
                }
            }
            k = k + 1;
        }
        assert(ev.take(existing.len() as int) =~= ev);
    }
    r
}

/// Symbols stored by a run: the node counts of the stored files, summed.
pub open spec fn stored_nodes(files: Seq<(usize, usize)>) -> nat
    decreases files.len(),
{
    if files.len() == 0 {
        0
    } else {
        stored_nodes(files.drop_last()) + files.last().0 as nat
    }
}

/// Relationships stored by a run: the edge counts of the stored files, summed.
pub open spec fn stored_edges(files: Seq<(usize, usize)>) -> nat
    decreases files.len(),
{
    if files.len() == 0 {
        0
    } else {
        stored_edges(files.drop_last()) + files.last().1 as nat
    }
}

proof fn lemma_stored_prefix(files: Seq<(usize, usize)>, i: int)
    requires
        0 <= i <= files.len(),
    ensures
        stored_nodes(files.take(i)) <= stored_nodes(files),
        stored_edges(files.take(i)) <= stored_edges(files),
    decreases files.len() - i,
{
    if i < files.len() {
        lemma_stored_prefix(files, i + 1);
        assert(files.take(i + 1).drop_last() =~= files.take(i));
    } else {
        assert(files.take(i) =~= files);
    }
}

/// The summary of a run that stored files with the given (symbol,
/// relationship) counts, skipped `files_skipped` files, stored
/// `import_edges` resolved imports and bound `relationships_rebound`
/// occurrences again.
pub fn index_result(
    stored: &[(usize, usize)],
    files_skipped: usize,
    import_edges: usize,
    relationships_rebound: usize,
    duration_ms: u128,
) -> (r: IndexResult)
    requires
        stored_nodes(stored@) <= usize::MAX,
        stored_edges(stored@) + import_edges <= usize::MAX,
    ensures
        r.files_indexed == stored@.len(),
        r.files_skipped == files_skipped,
        r.nodes_created == stored_nodes(stored@),
        r.edges_created == stored_edges(stored@) + import_edges,
        r.relationships_rebound == relationships_rebound,
        r.duration_ms == duration_ms,
{
    let mut nodes: usize = 0;
    let mut edges: usize = 0;
    let mut i: usize = 0;
    while i < stored.len()
        invariant
            i <= stored.len(),
            stored_nodes(stored@) <= usize::MAX,
            stored_edges(stored@) + import_edges <= usize::MAX,
            nodes == stored_nodes(stored@.take(i as int)),
            edges == stored_edges(stored@.take(i as int)),
        decreases stored.len() - i,
    {
        proof {
            lemma_stored_prefix(stored@, i + 1);
            assert(stored@.take(i + 1).drop_last() =~= stored@.take(i as int));
        }
        nodes = nodes + stored[i].0;
        edges = edges + stored[i].1;
        i = i + 1;
    }
    assert(stored@.take(stored.len() as int) =~= stored@);
    IndexResult {
        files_indexed: stored.len(),
        files_skipped,
        nodes_created: nodes,
        edges_created: edges + import_edges,
        relationships_rebound,
        duration_ms,
    }
}

/// The steps that follow the parsing and storing of a run.
#[derive(Debug, Clone, Copy, PartialEq, Eq, Structural)]
pub struct RunSteps {
    /// Bind unchanged callers again to added, moved or removed definitions.
    pub rebind_targets: bool,
    /// Resolve imports again and record the unresolved ones.
    pub resolve_imports: bool,
    /// Clear the marker that demands a full pass.
    pub mark_full_pass_done: bool,
    /// Start a new generation of stored facts.
    pub advance_generation: bool,
}

/// Something changed when a file was stored or a stale file removed; only
/// then are imports resolved again and a new generation started, and only an
/// incremental run needs to rebind unchanged callers. A full run, even of an
/// empty repository, clears the full-pass marker.
pub open spec fn run_steps_spec(incremental: bool, files_indexed: nat, removed_nodes: nat) -> RunSteps {
    let changed = files_indexed > 0 || removed_nodes > 0;
    RunSteps {
        rebind_targets: changed && incremental,
        resolve_imports: changed,
        mark_full_pass_done: !incremental,
        advance_generation: changed,
    }
}

/// The follow-up steps of a run (see [`run_steps_spec`]).
pub fn run_steps(incremental: bool, files_indexed: usize, removed_nodes: usize) -> (r: RunSteps)
    ensures
        r == run_steps_spec(incremental, files_indexed as nat, removed_nodes as nat),
{
    let changed = files_indexed > 0 || removed_nodes > 0;
    RunSteps {
        rebind_targets: changed && incremental,
        resolve_imports: changed,
        mark_full_pass_done: !incremental,
        advance_generation: changed,
    }
}

} // verus!
