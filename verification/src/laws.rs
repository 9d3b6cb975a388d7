//! Properties that span several functions of the library, stated over the
//! specifications that the functions' contracts use.
use vstd::prelude::*;
use vstd::utf8::{encode_utf8, encode_utf8_decode_utf8, encode_utf8_valid_utf8};

use crate::digest::{hex_decode_spec, hex_lower, lemma_hex_ascii_decodes, lemma_hex_lower_bytes};
use crate::error::ErrorView;
use crate::indexer::markdown::{contains_edge, headings_of, hierarchy_edges, lines_of, parent_of, parent_search, HeadingSpec};
use crate::indexer::run::{changed_name_spec, node_names, nodes_in_files, nodes_outside_files, pass_nodes_spec, collects_file_spec, stale_paths_spec, always_skipped_dir_spec, keeps_entry_spec, run_steps_spec, unchanged_spec, RunSteps};
use crate::indexer::endpoints::{endpoint_node, java_route, javascript_route, RouteView, SyntaxNode, http_verb_spec, is_router_name, spring_mapping, unquote_spec};
use crate::indexer::markdown::{fence_count, fence_line, anchor_fold, anchor_step, lower_all, anchor_target, heading_anchor, link_edge, link_edges_for, markdown_anchor_of, source_heading, boundary_from, headings_upto, heading_at, atx_heading_spec, fit_prefix, qualified_name_of, section_body, section_end};
use crate::order::{insert_pos, stable_sort};
use crate::text::{
    end_non_ws, end_other, first_non_ws_from, first_other_from, join, lemma_first_other_bounds, trim, trim_end_char,
    unicode_whitespace,
};
use crate::indexer::pipeline::{call_candidates_spec, materialized, CandidateSetView, MAX_AMBIGUOUS_CALL_TARGETS};
use crate::json::{
    json_get, json_text, key_slot, lemma_member_position_bounds, member_get, member_insert, member_position, JsonView,
    NumberView,
};
use crate::lsp::{
    file_uri_spec, header_step_spec, lemma_decode_uri_bytes, lemma_frame_lines, lemma_percent_encoded_bytes, lemma_percent_encoded_concat, lsp_mode_name,
    path_from_file_uri_spec, percent_encoded, uri_bytes, verbatim_prefix, LspMode, LspReport,
};
use crate::mcp::{complete_result_spec, server_info_key, server_info_view};
use crate::presentation::markdown::{flat_row, flat_table, render_value, table_rows, table_text};
use crate::presentation::{
    anchor_of, compact_neighborhood, compact_spec, compact_stages, drop_anchor_endpoint, id_of, keys_distinct,
    lemma_remove_leaves_no_member, lemma_share_value_keeps_keys_distinct, share_value, strip_member,
};
use crate::service::expand::{lemma_set_member_get, lemma_set_member_keeps};
use crate::service::cursor::cursor_json;
use crate::service::expand::{bound_page_spec, bound_ready, lemma_bound_page_fits, PageContext};
use crate::service::expand::{
    lemma_largest_section_is_largest, lemma_trim_step_section, largest_section, pages_ready, section_bytes,
    section_items, trim_step, trimmable, SectionPage,
};
use crate::service::expand::{
    bounded_resolution_spec, candidate_count, drop_candidate, expand_section_name, lemma_drop_candidate, within_budget,
    ExpandSection, COMPACT_EXPAND_BYTES,
};
use crate::service::pages::{of_kind, outline_symbols, source_order, exact_on_page, other_named, fts_request, finished_page, in_scope, local_in, sat_add, window};
use crate::service::path::{
    absorb_spec, chain_len, chain_spec, frontier_spec, layered, lemma_layered_round, out_edges, position_of, search_wf,
    walk_in, SearchView,
};
use crate::service::PATH_SEARCH_VISIT_LIMIT;
use crate::service::registry::CodeFactsRegistry;
use crate::service::results::{
    counts_total, cursor_at, kept_samples, lemma_name_counts_total, map_json, node_kind_names, node_language_names,
    path_found_json, sum_counts, symbol_facts_json, unresolved_facts_json, unresolved_report_json,
};
use crate::service::{
    path_matches_prefix_spec, fts_query_spec, fts_term, lemma_tokens_append_word, lemma_tokens_last_word, word_char, word_tokens,
    bounded_limit_spec, has_parent_segment, page_offset_spec, relative_path_spec, symbol_scope_name, Freshness,
    PageCursor, PageOffset, RelationshipFact, SymbolFact, SymbolScope, UnresolvedReferenceFact, MAX_LIMIT,
    PAGE_CURSOR_VERSION, UNRESOLVED_REFERENCE_SAMPLE_LIMIT,
};
use crate::text::utf8_len;
use crate::types::{Language, node_kind_name, node_kind_named, CodeNode, EdgeView, NodeKind, NodeView};

verus! {

/// Every LSP mode reads back from its own spelling.
pub proof fn law_lsp_mode_spelling_round_trips(m: LspMode)
    ensures
        (if lsp_mode_name(m) == "auto"@ {
            Some(LspMode::Auto)
        } else if lsp_mode_name(m) == "off"@ {
            Some(LspMode::Off)
        } else {
            None
        }) == Some(m),
{
    reveal_strlit("auto");
    reveal_strlit("off");
    assert("off"@.len() != "auto"@.len());
}

/// Every discovery scope reads back from its own spelling.
pub proof fn law_symbol_scope_spelling_round_trips(s: SymbolScope)
    ensures
        (if symbol_scope_name(s) == "top_level"@ {
            Some(SymbolScope::TopLevel)
        } else if symbol_scope_name(s) == "all"@ {
            Some(SymbolScope::All)
        } else {
            None
        }) == Some(s),
{
    reveal_strlit("top_level");
    reveal_strlit("all");
    assert("all"@.len() != "top_level"@.len());
}

/// Distinct expand sections have distinct names, so a section reads back
/// from its own name.
pub proof fn law_expand_section_names_are_distinct(a: ExpandSection, b: ExpandSection)
    ensures
        expand_section_name(a) == expand_section_name(b) ==> a == b,
{
    reveal_strlit("all");
    reveal_strlit("callers");
    reveal_strlit("callees");
    reveal_strlit("inbound");
    reveal_strlit("outbound");
    reveal_strlit("tests");
    reveal_strlit("semantic");
    if expand_section_name(a) == expand_section_name(b) {
        let na = expand_section_name(a);
        assert(na.len() == expand_section_name(b).len());
        assert(na[0] == expand_section_name(b)[0]);
        if na.len() > 4 {
            assert(na[4] == expand_section_name(b)[4]);
            assert(na[5] == expand_section_name(b)[5]);
        }
    }
}

/// Every node kind reads back from its own serialized name.
pub proof fn law_node_kind_name_round_trips(k: NodeKind)
    ensures
        node_kind_named(node_kind_name(k)) == Some(k),
{
    reveal_strlit("function");
    reveal_strlit("class");
    reveal_strlit("method");
    reveal_strlit("interface");
    reveal_strlit("type_alias");
    reveal_strlit("enum");
    reveal_strlit("variable");
    reveal_strlit("struct");
    reveal_strlit("trait");
    reveal_strlit("module");
    reveal_strlit("property");
    reveal_strlit("namespace");
    reveal_strlit("constant");
    reveal_strlit("heading");
    reveal_strlit("endpoint");
    assert("function"@.len() == 8 && "function"@[0] == 'f' && "function"@[1] == 'u');
    assert("class"@.len() == 5 && "class"@[0] == 'c' && "class"@[1] == 'l');
    assert("method"@.len() == 6 && "method"@[0] == 'm' && "method"@[1] == 'e');
    assert("interface"@.len() == 9 && "interface"@[0] == 'i' && "interface"@[1] == 'n');
    assert("type_alias"@.len() == 10 && "type_alias"@[0] == 't' && "type_alias"@[1] == 'y');
    assert("enum"@.len() == 4 && "enum"@[0] == 'e' && "enum"@[1] == 'n');
    assert("variable"@.len() == 8 && "variable"@[0] == 'v' && "variable"@[1] == 'a');
    assert("struct"@.len() == 6 && "struct"@[0] == 's' && "struct"@[1] == 't');
    assert("trait"@.len() == 5 && "trait"@[0] == 't' && "trait"@[1] == 'r');
    assert("module"@.len() == 6 && "module"@[0] == 'm' && "module"@[1] == 'o');
    assert("property"@.len() == 8 && "property"@[0] == 'p' && "property"@[1] == 'r');
    assert("namespace"@.len() == 9 && "namespace"@[0] == 'n' && "namespace"@[1] == 'a');
    assert("constant"@.len() == 8 && "constant"@[0] == 'c' && "constant"@[1] == 'o');
    assert("heading"@.len() == 7 && "heading"@[0] == 'h' && "heading"@[1] == 'e');
    assert("endpoint"@.len() == 8 && "endpoint"@[0] == 'e' && "endpoint"@[1] == 'n');
}

/// A page size is always between 1 and 50, and a size already in that range
/// is kept.
pub proof fn law_page_size_is_bounded(limit: Option<usize>)
    ensures
        1 <= bounded_limit_spec(limit) <= MAX_LIMIT,
        forall|l: usize| limit == Some(l) && 1 <= l <= MAX_LIMIT ==> bounded_limit_spec(limit) == l,
{
}

/// A relative path argument without backslashes that is accepted never
/// climbs out of the repository.
pub proof fn law_accepted_paths_stay_inside(input: Seq<char>)
    requires
        forall|i: int| 0 <= i < input.len() ==> input[i] != '\\',
        relative_path_spec(input) is Ok,
    ensures
        !has_parent_segment(relative_path_spec(input)->Ok_0),
{
    let out = relative_path_spec(input)->Ok_0;
    assert(out =~= input) by {
        assert forall|i: int| 0 <= i < input.len() implies out[i] == input[i] by {}
    }
}

proof fn lemma_parent_before(hs: Seq<HeadingSpec>, i: int, j: int)
    requires
        0 <= j <= i,
    ensures
        parent_search(hs, i, j) < j,
    decreases j,
{
    if j > 0 {
        lemma_parent_before(hs, i, j - 1);
    }
}

/// Every hierarchy edge of a Markdown document is a `contains` edge from a
/// heading to a later heading of the same document.
pub proof fn law_heading_hierarchy_points_forward(file: Seq<char>, source: Seq<char>)
    ensures
        ({
            let hs = headings_of(lines_of(source));
            let edges = hierarchy_edges(file, hs, hs.len() as int);
            forall|k: int|
                0 <= k < edges.len() ==> exists|p: int, i: int|
                    0 <= p < i < hs.len() && #[trigger] edges[k] == contains_edge(file, hs, p, i)
        }),
{
    let hs = headings_of(lines_of(source));
    lemma_hierarchy_points_forward(file, hs, hs.len() as int);
}

proof fn lemma_hierarchy_points_forward(file: Seq<char>, hs: Seq<HeadingSpec>, n: int)
    requires
        n <= hs.len(),
    ensures
        forall|k: int|
            0 <= k < hierarchy_edges(file, hs, n).len() ==> exists|p: int, i: int|
                0 <= p < i < n && #[trigger] hierarchy_edges(file, hs, n)[k] == contains_edge(file, hs, p, i),
    decreases n,
{
    if n > 0 {
        lemma_hierarchy_points_forward(file, hs, n - 1);
        if n - 1 >= 0 {
            lemma_parent_before(hs, n - 1, n - 1);
        }
        let prev = hierarchy_edges(file, hs, n - 1);
        let p = parent_of(hs, n - 1);
        let cur = hierarchy_edges(file, hs, n);
        assert forall|k: int| 0 <= k < cur.len() implies exists|a: int, b: int|
            0 <= a < b < n && #[trigger] cur[k] == contains_edge(file, hs, a, b) by {
            if k < prev.len() {
                assert(cur[k] == prev[k]);
                let (a, b) = choose|a: int, b: int|
                    0 <= a < b < n - 1 && #[trigger] prev[k] == contains_edge(file, hs, a, b);
                assert(0 <= a < b < n && cur[k] == contains_edge(file, hs, a, b));
            } else {
                assert(cur[k] == contains_edge(file, hs, p, n - 1));
            }
        }
    }
}

/// Setting a member and reading it back gives the value set; every other
/// member reads as before.
pub proof fn law_object_insert_then_get(m: Seq<(Seq<char>, JsonView)>, key: Seq<char>, value: JsonView, other: Seq<char>)
    ensures
        member_get(member_insert(m, key, value), key) == Some(value),
        other != key ==> member_get(member_insert(m, key, value), other) == member_get(m, other),
{
    lemma_member_position_bounds(m, key, 0);
    lemma_member_position_bounds(m, other, 0);
    let r = member_insert(m, key, value);
    let p = member_position(m, key, 0);
    if p >= 0 {
        lemma_position_after_update(m, p, key, value, key, 0);
        lemma_position_after_update(m, p, key, value, other, 0);
    } else {
        let q = key_slot(m, key, 0);
        lemma_position_after_insert(m, q, key, value, key);
        lemma_position_after_insert(m, q, key, value, other);
    }
}

proof fn lemma_position_after_update(
    m: Seq<(Seq<char>, JsonView)>,
    p: int,
    key: Seq<char>,
    value: JsonView,
    k: Seq<char>,
    i: int,
)
    requires
        0 <= p < m.len(),
        m[p].0 == key,
        0 <= i <= m.len(),
    ensures
        member_position(m.update(p, (key, value)), k, i) == member_position(m, k, i),
    decreases m.len() - i,
{
    if i < m.len() {
        lemma_position_after_update(m, p, key, value, k, i + 1);
    }
}

proof fn lemma_position_after_insert(
    m: Seq<(Seq<char>, JsonView)>,
    q: int,
    key: Seq<char>,
    value: JsonView,
    k: Seq<char>,
)
    requires
        0 <= q <= m.len(),
        member_position(m, key, 0) == -1,
    ensures
        ({
            let r = m.take(q) + seq![(key, value)] + m.skip(q);
            &&& k == key ==> member_position(r, k, 0) >= 0 && r[member_position(r, k, 0)] == (key, value)
            &&& k != key ==> (member_position(m, k, 0) >= 0 <==> member_position(r, k, 0) >= 0)
            &&& k != key && member_position(m, k, 0) >= 0 ==> r[member_position(r, k, 0)] == m[member_position(m, k, 0)]
        }),
{
    let r = m.take(q) + seq![(key, value)] + m.skip(q);
    lemma_member_position_bounds(m, k, 0);
    lemma_member_position_bounds(r, k, 0);
    lemma_first_match(m, k, 0);
    lemma_first_match(r, k, 0);
    lemma_first_match(m, key, 0);
    if k == key {
        assert(r[q].0 == k);
    } else {
        let pm = member_position(m, k, 0);
        let pr = member_position(r, k, 0);
        if pm >= 0 {
            let target = if pm < q { pm } else { pm + 1 };
            assert(r[target] == m[pm]);
        }
        if pr >= 0 {
            let source = if pr < q { pr } else { pr - 1 };
            assert(pr != q);
            assert(m[source] == r[pr]);
        }
    }
}

proof fn lemma_first_match(m: Seq<(Seq<char>, JsonView)>, k: Seq<char>, i: int)
    requires
        0 <= i <= m.len(),
    ensures
        member_position(m, k, i) == -1 ==> forall|j: int| i <= j < m.len() ==> m[j].0 != k,
        member_position(m, k, i) >= 0 ==> forall|j: int| i <= j < member_position(m, k, i) ==> m[j].0 != k,
    decreases m.len() - i,
{
    if i < m.len() {
        lemma_first_match(m, k, i + 1);
    }
}

/// A modern result is always marked complete and names the server in its
/// metadata.
pub proof fn law_modern_results_are_complete(m: Seq<(Seq<char>, JsonView)>)
    ensures
        json_get(complete_result_spec(m), "resultType"@) == Some(JsonView::String("complete"@)),
        json_get(complete_result_spec(m), "_meta"@) matches Some(meta) && json_get(meta, server_info_key())
            == Some(server_info_view()),
{
    reveal_strlit("resultType");
    reveal_strlit("_meta");
    let r1 = member_insert(m, "resultType"@, JsonView::String("complete"@));
    law_object_insert_then_get(m, "resultType"@, JsonView::String("complete"@), "_meta"@);
    let meta = match member_get(r1, "_meta"@) {
        Some(JsonView::Object(mm)) => JsonView::Object(member_insert(mm, server_info_key(), server_info_view())),
        _ => JsonView::Object(seq![(server_info_key(), server_info_view())]),
    };
    law_object_insert_then_get(r1, "_meta"@, meta, "resultType"@);
    match member_get(r1, "_meta"@) {
        Some(JsonView::Object(mm)) => {
            law_object_insert_then_get(mm, server_info_key(), server_info_view(), server_info_key());
        },
        _ => {
            let single = seq![(server_info_key(), server_info_view())];
            assert(member_position(single, server_info_key(), 0) == 0);
        },
    }
}

/// A call whose candidate set carries no uncertainty label names at most
/// one target: only labelled sets fan out.
pub proof fn law_static_calls_name_one_target(e: EdgeView, found: Option<Seq<NodeView>>)
    ensures
        call_candidates_spec(e, found).resolution is None ==> call_candidates_spec(e, found).targets.len() <= 1,
{
}

/// A candidate set is stored as at most `MAX_AMBIGUOUS_CALL_TARGETS`
/// occurrences, one per kept target.
pub proof fn law_candidate_sets_are_bounded(t: EdgeView, cs: CandidateSetView)
    ensures
        materialized(t, cs).len() <= MAX_AMBIGUOUS_CALL_TARGETS,
        materialized(t, cs).len() == if cs.targets.len() > MAX_AMBIGUOUS_CALL_TARGETS {
            MAX_AMBIGUOUS_CALL_TARGETS as int
        } else {
            cs.targets.len() as int
        },
{
    let n = if cs.targets.len() > MAX_AMBIGUOUS_CALL_TARGETS {
        MAX_AMBIGUOUS_CALL_TARGETS as int
    } else {
        cs.targets.len() as int
    };
    lemma_candidate_edges_len(t, cs.targets.take(n), cs.resolution, cs.candidate_count);
}

proof fn lemma_candidate_edges_len(t: EdgeView, targets: Seq<NodeView>, resolution: Option<Seq<char>>, count: nat)
    ensures
        crate::indexer::pipeline::candidate_edges(t, targets, resolution, count).len() == targets.len(),
    decreases targets.len(),
{
    if targets.len() > 0 {
        lemma_candidate_edges_len(t, targets.drop_last(), resolution, count);
    }
}

/// A result page never holds more than its page size, and it names the
/// next page's offset exactly when results were left out.
pub proof fn law_pages_are_bounded(found: Seq<NodeView>, offset: usize, limit: usize)
    ensures
        finished_page(found, offset, limit).0.len() <= limit,
        finished_page(found, offset, limit).1 is Some <==> found.len() > limit,
        finished_page(found, offset, limit).1 is Some ==> finished_page(found, offset, limit).1 == Some(sat_add(offset, limit)),
        window(found, offset, limit).len() <= limit,
{
}

/// An array of flat facts renders as one table: a single header, then one
/// row per item, in the items' order, each holding that item's cells.
pub proof fn law_flat_facts_share_one_table(out: Seq<char>, items: Seq<JsonView>, level: usize)
    requires
        flat_table(items) is Some,
    ensures
        render_value(out, JsonView::Array(items), level) == out + table_text(
            flat_table(items)->Some_0.0,
            flat_table(items)->Some_0.1,
        ),
        flat_table(items)->Some_0.1.len() == items.len(),
        forall|i: int|
            0 <= i < items.len() ==> flat_row(#[trigger] items[i]) == Some(flat_table(items)->Some_0.1[i]),
{
    lemma_table_rows_in_order(items, items.len() as int);
}

proof fn lemma_table_rows_in_order(items: Seq<JsonView>, k: int)
    requires
        0 <= k <= items.len(),
    ensures
        table_rows(items, k) matches Some((_, rows, _)) ==> rows.len() == k && forall|i: int|
            0 <= i < k ==> flat_row(#[trigger] items[i]) == Some(rows[i]),
    decreases k,
{
    if k > 0 {
        lemma_table_rows_in_order(items, k - 1);
    }
}

/// A project opened for a root is the one every later selection of that root
/// gets, and opening it leaves every other root's project as it was.
pub proof fn law_opened_projects_are_kept<P>(
    before: CodeFactsRegistry<P>,
    after: CodeFactsRegistry<P>,
    root: Seq<char>,
    project: P,
    other: Seq<char>,
)
    requires
        after.projects() == before.projects().insert(root, project),
        other != root,
    ensures
        after.projects().dom().contains(root),
        after.projects()[root] == project,
        after.projects().dom().contains(other) == before.projects().dom().contains(other),
        before.projects().dom().contains(other) ==> after.projects()[other] == before.projects()[other],
{
}

/// A budgeted resolution result that is answered fits the compact budget:
/// its JSON text takes at most `COMPACT_EXPAND_BYTES` UTF-8 bytes.
pub proof fn law_budgeted_results_fit(result: JsonView)
    ensures
        bounded_resolution_spec(result) matches Ok(v) ==> utf8_len(json_text(v)) <= COMPACT_EXPAND_BYTES,
    decreases candidate_count(result),
{
    if !within_budget(result) {
        match json_get(result, "matches"@) {
            Some(JsonView::Array(m)) => if m.len() > 1 {
                lemma_drop_candidate(result, m, "matches"@);
                law_budgeted_results_fit(drop_candidate(result, m));
            },
            _ => {},
        }
    }
}

/// A path result never carries more symbols than its limit: a longer path
/// is reported by its length alone.
pub proof fn law_paths_never_exceed_the_limit(
    f: Freshness,
    from: SymbolFact,
    to: SymbolFact,
    path: Seq<SymbolFact>,
    relationships: Seq<RelationshipFact>,
    limit: usize,
)
    ensures
        path.len() <= limit ==> path_found_json(f, from, to, path, relationships, limit)->Object_0[1] == (
            "path"@,
            symbol_facts_json(path),
        ),
        path.len() > limit ==> path_found_json(f, from, to, path, relationships, limit)->Object_0[4] == (
            "path_length"@,
            JsonView::Number(NumberView::PosInt(path.len() as u64)),
        ) && forall|i: int|
            0 <= i < 8 ==> (#[trigger] path_found_json(f, from, to, path, relationships, limit)->Object_0[i]).0
                != "path"@,
{
    if path.len() > limit {
        reveal_strlit("freshness");
        reveal_strlit("from");
        reveal_strlit("maximum_path_length");
        reveal_strlit("message");
        reveal_strlit("path_length");
        reveal_strlit("relationship_kind");
        reveal_strlit("status");
        reveal_strlit("to");
        reveal_strlit("path");
        assert("freshness"@[0] != "path"@[0]);
        assert("from"@[0] != "path"@[0]);
        assert("maximum_path_length"@[0] != "path"@[0]);
        assert("message"@[0] != "path"@[0]);
        assert("path_length"@.len() != "path"@.len());
        assert("relationship_kind"@[0] != "path"@[0]);
        assert("status"@[0] != "path"@[0]);
        assert("to"@[0] != "path"@[0]);
    }
}

/// The unresolved-reference report keeps at most
/// `UNRESOLVED_REFERENCE_SAMPLE_LIMIT` samples, the first ones, and says it
/// left some out exactly when there are more.
pub proof fn law_unresolved_samples_are_bounded(facts: Seq<UnresolvedReferenceFact>)
    ensures
        unresolved_report_json(facts)->Object_0[1].1 == unresolved_facts_json(facts.take(kept_samples(facts.len()))),
        kept_samples(facts.len()) <= UNRESOLVED_REFERENCE_SAMPLE_LIMIT,
        kept_samples(facts.len()) == facts.len() || kept_samples(facts.len()) == UNRESOLVED_REFERENCE_SAMPLE_LIMIT,
        unresolved_report_json(facts)->Object_0[2].1 == JsonView::Bool(facts.len() > UNRESOLVED_REFERENCE_SAMPLE_LIMIT),
        unresolved_report_json(facts)->Object_0[0].1 == JsonView::Number(NumberView::PosInt(facts.len() as u64)),
{
}

/// A cursor's text spells exactly the bytes it was made from: decoding the
/// hexadecimal spelling gives them back.
pub proof fn law_cursor_text_round_trips(data: Seq<u8>)
    ensures
        hex_decode_spec(encode_utf8(hex_lower(data))) == Some(data),
{
    lemma_hex_lower_bytes(data);
    lemma_hex_ascii_decodes(data);
}

/// The cursor issued for a page decodes to that page's cursor record: its
/// version, the generation it was issued in, its offset and its scope.
pub proof fn law_issued_cursor_names_its_page(generation: i64, offset: usize, scope: Seq<char>)
    ensures
        hex_decode_spec(encode_utf8(cursor_at(generation, offset, scope))) == Some(
            encode_utf8(cursor_json(PAGE_CURSOR_VERSION, generation, offset, scope)),
        ),
{
    law_cursor_text_round_trips(encode_utf8(cursor_json(PAGE_CURSOR_VERSION, generation, offset, scope)));
}

/// A cursor binds its page to one snapshot: in the generation it was issued
/// in it resumes at its offset, once the index has moved on it is stale,
/// and a cursor of another request is refused.
pub proof fn law_cursor_binds_one_snapshot(c: PageCursor, generation: i64, scope: Seq<char>)
    ensures
        c.version == PAGE_CURSOR_VERSION && c.scope@ == scope ==> page_offset_spec(
            Some(Ok(c)),
            0,
            generation,
            scope,
        ) == (if c.generation == generation {
            Ok::<PageOffset, ErrorView>(PageOffset::Current(c.offset))
        } else {
            Ok::<PageOffset, ErrorView>(PageOffset::Stale)
        }),
        c.scope@ != scope ==> page_offset_spec(Some(Ok(c)), 0, generation, scope) is Err,
{
}

/// The `map` counts agree: every symbol is counted once under its language
/// and once under its kind, `indexed_files` is the total of the per-language
/// file counts, `languages` repeats those file counts, and `repository` is
/// the root that the freshness record names.
pub proof fn law_map_counts_agree(
    f: Freshness,
    files: usize,
    symbols: usize,
    relationships: usize,
    nodes: Seq<CodeNode>,
    file_counts: Seq<(String, usize)>,
    unresolved: JsonView,
    lsp: LspReport,
)
    requires
        nodes.len() < u64::MAX,
    ensures
        ({
            let m = map_json(
                f,
                files,
                symbols,
                relationships,
                node_language_names(nodes),
                node_kind_names(nodes),
                file_counts,
                unresolved,
                lsp,
            )->Object_0;
            &&& m[6].0 == "language_symbol_counts"@ && counts_total(m[6].1->Object_0) == nodes.len()
            &&& m[11].0 == "symbol_kinds"@ && counts_total(m[11].1->Object_0) == nodes.len()
            &&& m[4] == ("indexed_files"@, JsonView::Number(NumberView::PosInt(sum_counts(file_counts) as u64)))
            &&& m[7].1 == m[5].1
            &&& m[10] == ("repository"@, JsonView::String(f.repository_root@))
        }),
{
    lemma_name_counts_total(node_language_names(nodes));
    lemma_name_counts_total(node_kind_names(nodes));
}

/// A compact result names each source file's hash once: the hashes it
/// gathers are keyed by distinct files, and they are what it writes under
/// `source_hashes`.
pub proof fn law_source_hashes_name_each_file_once(v: JsonView)
    ensures
        keys_distinct(share_value(compact_stages(v), Seq::empty()).1),
        share_value(compact_stages(v), Seq::empty()).1.len() > 0 ==> member_get(
            compact_spec(v)->Object_0,
            "source_hashes"@,
        ) == Some(JsonView::Object(share_value(compact_stages(v), Seq::empty()).1)),
{
    let (shared, hashes) = share_value(compact_stages(v), Seq::empty());
    lemma_share_value_keeps_keys_distinct(compact_stages(v), Seq::empty());
    let formatted = member_insert(shared->Object_0, "format"@, JsonView::String("compact"@));
    law_object_insert_then_get(formatted, "source_hashes"@, JsonView::Object(hashes), "source_hashes"@);
}

/// A compacted entry writes its anchor once: a caller whose `to` endpoint
/// was the entry's own anchor no longer repeats it (members of an object
/// have distinct keys).
pub proof fn law_callers_do_not_repeat_the_anchor(v: JsonView, i: int)
    requires
        ({
            let rels = json_get(v, "callers"@)->Some_0->Array_0;
            &&& v is Object
            &&& anchor_of(v) is Some
            &&& json_get(v, "callers"@) matches Some(JsonView::Array(_))
            &&& 0 <= i < rels.len()
            &&& rels[i] is Object
            &&& keys_distinct(rels[i]->Object_0)
            &&& member_get(rels[i]->Object_0, "to"@) is Some
            &&& id_of(member_get(rels[i]->Object_0, "to"@)->Some_0) == anchor_of(v)->Some_0
        }),
    ensures
        ({
            let out = json_get(compact_neighborhood(v), "callers"@);
            &&& out matches Some(JsonView::Array(_))
            &&& i < out->Some_0->Array_0.len()
            &&& out->Some_0->Array_0[i] is Object
            &&& member_get(out->Some_0->Array_0[i]->Object_0, "to"@) is None
        }),
{
    let anchor = anchor_of(v)->Some_0;
    let rels = json_get(v, "callers"@)->Some_0->Array_0;
    let fields = rels[i]->Object_0;
    let stripped = rels.map_values(|r: JsonView| drop_anchor_endpoint(r, "to"@, anchor));
    let callers = strip_member(v, "callers"@, "to"@, anchor);
    lemma_set_member_get(v, "callers"@, JsonView::Array(stripped), "callers"@);
    lemma_remove_leaves_no_member(fields, "to"@);
    reveal_strlit("callers");
    reveal_strlit("callees");
    reveal_strlit("references");
    assert("callers"@[5] != "callees"@[5]);
    assert("callers"@.len() != "references"@.len());
    lemma_set_member_keeps(callers, "callees"@, "callers"@);
    let callees = strip_member(callers, "callees"@, "from"@, anchor);
    lemma_set_member_keeps(callees, "references"@, "callers"@);
}


/// An unchanged repository is hash-skipped and only changed files are parsed
/// again: an incremental run leaves a file alone exactly when its stored hash
/// is the hash of its current text (a full run leaves none alone); a run
/// starts a new generation, and resolves imports again, exactly when it
/// stored a file or removed the facts of one, so a run that stored and
/// removed nothing neither rebinds, nor resolves imports, nor starts a new
/// generation; only a full run clears the full-pass marker.
pub proof fn law_unchanged_files_are_hash_skipped(
    incremental: bool,
    stored_hash: Option<Seq<char>>,
    content_hash: Seq<char>,
    files_indexed: nat,
    removed_nodes: nat,
)
    ensures
        unchanged_spec(incremental, stored_hash, content_hash) <==> (incremental && stored_hash == Some(
            content_hash,
        )),
        run_steps_spec(incremental, files_indexed, removed_nodes).advance_generation <==> (files_indexed > 0
            || removed_nodes > 0),
        run_steps_spec(incremental, files_indexed, removed_nodes).resolve_imports <==> (files_indexed > 0
            || removed_nodes > 0),
        run_steps_spec(incremental, files_indexed, removed_nodes).mark_full_pass_done <==> !incremental,
        run_steps_spec(incremental, 0, 0) == (RunSteps {
            rebind_targets: false,
            resolve_imports: false,
            mark_full_pass_done: !incremental,
            advance_generation: false,
        }),
{
}


/// Budget trimming is the largest section first: a compact `expand` answer
/// over budget loses one item, the last, of the section whose JSON text is
/// longest among the sections with items left, and that page is marked as
/// continued while every other page stays as it was; when no section has an
/// item left, nothing is trimmed.
pub proof fn law_trimming_takes_the_last_item_of_the_largest_section(result: JsonView, pages: Seq<SectionPage>)
    requires
        pages_ready(result, pages),
    ensures
        match trim_step(result, pages) {
            None => forall|i: int| 0 <= i < pages.len() ==> !trimmable(result, #[trigger] pages[i].section),
            Some(next) => {
                let b = largest_section(result, pages);
                &&& 0 <= b < pages.len()
                &&& trimmable(result, pages[b].section)
                &&& forall|i: int|
                    0 <= i < pages.len() && trimmable(result, #[trigger] pages[i].section) ==> section_bytes(
                        result,
                        pages[i].section,
                    ) <= section_bytes(result, pages[b].section)
                &&& section_items(next.0, pages[b].section) == Some(
                    section_items(result, pages[b].section)->Some_0.drop_last(),
                )
                &&& next.1 == pages.update(b, SectionPage { more: true, ..pages[b] })
            },
        },
{
    lemma_largest_section_is_largest(result, pages);
    if largest_section(result, pages) >= 0 {
        lemma_trim_step_section(result, pages);
    }
}


/// Every result is bounded, `expand` pages too: what a compact section page
/// answers after budgeting takes at most `COMPACT_EXPAND_BYTES` UTF-8 bytes
/// of JSON text, continuation cursors included.
pub proof fn law_bounded_expand_pages_fit(result: JsonView, pages: Seq<SectionPage>, ctx: PageContext)
    requires
        bound_ready(result, pages),
        bound_page_spec(result, pages, ctx) is Ok,
    ensures
        utf8_len(json_text(bound_page_spec(result, pages, ctx)->Ok_0)) <= COMPACT_EXPAND_BYTES,
{
    lemma_bound_page_fits(result, pages, ctx);
}


/// A `path` answer is a shortest static calls path. A search starts
/// layered at depth 0 (`lemma_layered_start`) and each round that absorbs
/// every confirmed call leaving its whole queue keeps it layered one level
/// deeper (`lemma_layered_round`); in the round that reaches the target, the
/// chain to the target has `d + 1` edges and no walk along the calls from
/// the start to the target has fewer.
pub proof fn law_breadth_first_paths_are_shortest(s: SearchView, g: Seq<EdgeView>, d: nat)
    requires
        layered(s, g, d),
        s.queue_start < s.visited.len(),
        s.visited.len() - s.queue_start <= PATH_SEARCH_VISIT_LIMIT - s.visited.len(),
        search_wf(absorb_spec(frontier_spec(s).0, out_edges(g, frontier_spec(s).1->Some_0)).0),
        absorb_spec(frontier_spec(s).0, out_edges(g, frontier_spec(s).1->Some_0)).0.visited.len()
            < PATH_SEARCH_VISIT_LIMIT,
        absorb_spec(frontier_spec(s).0, out_edges(g, frontier_spec(s).1->Some_0)).1,
    ensures
        ({
            let t = absorb_spec(frontier_spec(s).0, out_edges(g, frontier_spec(s).1->Some_0)).0;
            &&& position_of(t.visited, t.to) == t.visited.len() - 1
            &&& chain_spec(t, t.visited.len() - 1) is Some
            &&& chain_len(t, t.visited.len() - 1) == d + 1
            &&& forall|ids: Seq<Seq<char>>|
                walk_in(g, ids) && ids[0] == t.from && #[trigger] ids.last() == t.to ==> ids.len() - 1 >= d + 1
        }),
{
    lemma_layered_round(s, g, d);
}

/// A file URI made from an absolute local path reads back as that path:
/// for a path that starts with `/` and holds no backslash,
/// `path_from_file_uri(file_uri_from_path(p, windows))` is `p`, on either
/// platform.
pub proof fn law_file_uris_round_trip(path: Seq<char>, windows: bool)
    requires
        path.len() > 0,
        path[0] == '/',
        forall|i: int| 0 <= i < path.len() ==> path[i] != '\\',
    ensures
        path_from_file_uri_spec(file_uri_spec(path, windows)) == Some(path),
{
    assert(!crate::text::starts_with(path, verbatim_prefix())) by {
        if 4 <= path.len() {
            assert(path.take(4)[0] == path[0]);
        }
    }
    let p2 = path.map_values(|c: char| if c == '\\' { '/' } else { c });
    assert(p2 =~= path);
    let bytes = encode_utf8(path);
    let e = percent_encoded(bytes);
    let uri = file_uri_spec(path, windows);
    assert(uri == crate::lsp::file_scheme() + e);
    assert(uri.take(7) =~= crate::lsp::file_scheme());
    assert(uri.skip(7) =~= e);
    // the encoded path still starts with `/`
    assert(bytes.take(1) =~= seq![47u8]) by {
        assert(('/' as u32) == 47u32);
        assert((47u32 & 0x7F) as u8 == 47u8) by (bit_vector);
        assert(path.drop_first().len() < path.len());
    }
    assert(bytes =~= bytes.take(1) + bytes.skip(1));
    lemma_percent_encoded_concat(bytes.take(1), bytes.skip(1));
    assert(seq![47u8].drop_last() =~= Seq::<u8>::empty());
    assert(percent_encoded(Seq::<u8>::empty()) == Seq::<char>::empty());
    assert(seq![47u8].last() == 47u8);
    assert(percent_encoded(seq![47u8]) =~= crate::lsp::encode_byte(47u8));
    assert((47u8 as char) == '/');
    assert(e[0] == '/');
    // its bytes decode back to the path's bytes
    lemma_percent_encoded_bytes(bytes);
    lemma_decode_uri_bytes(Seq::empty(), bytes, Seq::empty(), Seq::empty());
    assert(Seq::<u8>::empty() + uri_bytes(bytes) + Seq::<u8>::empty() =~= uri_bytes(bytes));
    assert(Seq::<u8>::empty() + bytes =~= bytes);
    encode_utf8_valid_utf8(path);
    encode_utf8_decode_utf8(path);
}

/// A message framed by `frame_header(len)` reads back through a
/// `HeaderBlock` as a body of `len` bytes: the header is the line
/// `Content-Length: <len>\r\n` followed by the empty line `\r\n`; the first
/// line sets the length and asks for more, whatever the block had read
/// before, and the second ends the block with a body of that length.
pub proof fn law_framed_headers_read_back(len: usize, before: Option<usize>)
    ensures
        ({
            let header = "Content-Length: "@ + crate::text::decimal(len as nat) + seq!['\r', '\n', '\r', '\n'];
            let first = header.take(header.len() - 2);
            let second = header.skip(header.len() - 2);
            &&& first.last() == '\n'
            &&& forall|i: int| 0 <= i < first.len() - 1 ==> first[i] != '\n'
            &&& second == seq!['\r', '\n']
            &&& header_step_spec(before, first).0 is None
            &&& header_step_spec(header_step_spec(before, first).1, second).0 == Some(Ok::<usize, Seq<char>>(len))
        }),
{
    reveal_strlit("Content-Length: ");
    let d = crate::text::decimal(len as nat);
    crate::text::lemma_decimal_reads_back(len as nat);
    let header = "Content-Length: "@ + d + seq!['\r', '\n', '\r', '\n'];
    let first = header.take(header.len() - 2);
    assert(first =~= "Content-Length: "@ + d + seq!['\r', '\n']);
    assert(header.skip(header.len() - 2) =~= seq!['\r', '\n']);
    assert forall|i: int| 0 <= i < first.len() - 1 implies first[i] != '\n' by {
        if 16 <= i < 16 + d.len() {
            assert(first[i] == d[i - 16]);
            assert(crate::text::is_ascii_digit(d[i - 16]));
        }
    }
    lemma_frame_lines(len);
}

/// The discovery scopes differ only in local variables: the `all` scope
/// keeps every symbol, in order, and the top-level scope keeps, in order,
/// exactly the symbols that are not variables declared inside a function or
/// method of their own file (such as the locals of a callback).
pub proof fn law_discovery_scopes_differ_in_locals(nodes: Seq<NodeView>, context: Seq<NodeView>)
    ensures
        in_scope(nodes, SymbolScope::All, context) == nodes,
        in_scope(nodes, SymbolScope::TopLevel, context) == nodes.filter(|n: NodeView| !local_in(n, context)),
    decreases nodes.len(),
{
    reveal(Seq::filter);
    if nodes.len() > 0 {
        law_discovery_scopes_differ_in_locals(nodes.drop_last(), context);
        assert(nodes.drop_last().push(nodes.last()) =~= nodes);
    }
}

/// Dependency and output directories are never walked: a directory is
/// always skipped exactly when its name is one of `node_modules`, `.git`,
/// `vendor`, `third_party`, `__pycache__`, `.venv`, `venv`, `target`,
/// `build`, `dist`, `.next`, `.nuxt`, `.output` and `.cache`; the walk
/// leaves out a directory of such a name and keeps a file of any name.
pub proof fn law_dependency_directories_are_never_walked(name: Seq<char>)
    ensures
        always_skipped_dir_spec(name) <==> (name == "node_modules"@ || name == ".git"@ || name == "vendor"@
            || name == "third_party"@ || name == "__pycache__"@ || name == ".venv"@ || name == "venv"@ || name
            == "target"@ || name == "build"@ || name == "dist"@ || name == ".next"@ || name == ".nuxt"@ || name
            == ".output"@ || name == ".cache"@),
        always_skipped_dir_spec(name) ==> !keeps_entry_spec(true, Some(name)),
        keeps_entry_spec(false, Some(name)),
{
}

/// Router methods name their HTTP verbs: exactly `get`, `post`, `put`,
/// `patch`, `delete` and `head` are verbs, and each gives its own name in
/// upper case.
pub proof fn law_router_methods_name_their_verbs(m: Seq<char>)
    ensures
        http_verb_spec(m) is Some <==> (m == "get"@ || m == "post"@ || m == "put"@ || m == "patch"@ || m
            == "delete"@ || m == "head"@),
        http_verb_spec(m) matches Some(v) ==> v.len() == m.len() && forall|i: int|
            0 <= i < m.len() ==> 'A' <= #[trigger] v[i] <= 'Z' && v[i] as u32 + 32 == m[i] as u32,
{
    reveal_strlit("get");
    reveal_strlit("post");
    reveal_strlit("put");
    reveal_strlit("patch");
    reveal_strlit("delete");
    reveal_strlit("head");
    reveal_strlit("GET");
    reveal_strlit("POST");
    reveal_strlit("PUT");
    reveal_strlit("PATCH");
    reveal_strlit("DELETE");
    reveal_strlit("HEAD");
}

/// Locals of functions and methods are not top-level symbols: a variable
/// whose line range lies inside a function or a method (another symbol) of
/// its own file is dropped by the top-level scope, and a symbol that is not a
/// variable, or a variable inside no function or method of its file,
/// always stays.
pub proof fn law_locals_of_callables_are_not_top_level(
    nodes: Seq<NodeView>,
    context: Seq<NodeView>,
    j: int,
    k: int,
)
    requires
        0 <= j < nodes.len(),
        0 <= k < context.len(),
    ensures
        nodes[j].kind == NodeKind::Variable && (context[k].kind == NodeKind::Function || context[k].kind
            == NodeKind::Method) && context[k].file_path == nodes[j].file_path && context[k].id != nodes[j].id
            && context[k].start_line <= nodes[j].start_line && nodes[j].end_line <= context[k].end_line
            ==> !in_scope(nodes, SymbolScope::TopLevel, context).contains(nodes[j]),
        nodes[j].kind != NodeKind::Variable ==> in_scope(nodes, SymbolScope::TopLevel, context).contains(
            nodes[j],
        ),
        (forall|e: int|
            0 <= e < context.len() ==> !((context[e].kind == NodeKind::Function || context[e].kind
                == NodeKind::Method) && context[e].file_path == nodes[j].file_path && context[e].id
                != nodes[j].id && context[e].start_line <= nodes[j].start_line && nodes[j].end_line
                <= #[trigger] context[e].end_line)) ==> in_scope(nodes, SymbolScope::TopLevel, context).contains(
            nodes[j],
        ),
{
    law_discovery_scopes_differ_in_locals(nodes, context);
    let pred = |n: NodeView| !local_in(n, context);
    let kept = nodes.filter(pred);
    assert(kept == in_scope(nodes, SymbolScope::TopLevel, context));
    if kept.contains(nodes[j]) {
        let i = choose|i: int| 0 <= i < kept.len() && kept[i] == nodes[j];
        nodes.lemma_filter_pred(pred, i);
        assert(!local_in(nodes[j], context));
    }
    if !local_in(nodes[j], context) {
        nodes.lemma_filter_contains(pred, j);
    }
    if nodes[j].kind == NodeKind::Variable && (context[k].kind == NodeKind::Function || context[k].kind
        == NodeKind::Method) && context[k].file_path == nodes[j].file_path && context[k].id != nodes[j].id
        && context[k].start_line <= nodes[j].start_line && nodes[j].end_line <= context[k].end_line {
        assert(crate::service::pages::encloses_in_file(context[k], nodes[j]));
        assert(local_in(nodes[j], context));
    }
}

/// `n` heading markers, a space and `title`.
spec fn marked_line(n: nat, title: Seq<char>) -> Seq<char> {
    Seq::new(n, |i: int| '#') + seq![' '] + title
}

/// The marker run of a marked line is its `n` leading `#`, and a title that
/// neither starts nor ends with whitespace nor ends with `#` trims to itself.
proof fn lemma_marked_line(n: nat, title: Seq<char>)
    requires
        title.len() > 0,
        !unicode_whitespace(title[0]),
        !unicode_whitespace(title.last()),
        title.last() != '#',
    ensures
        first_other_from(marked_line(n, title), '#', 0) == n,
        marked_line(n, title).subrange(n as int, marked_line(n, title).len() as int) =~= seq![' '] + title,
        trim(trim_end_char(trim(seq![' '] + title), '#')) == title,
{
    let t = marked_line(n, title);
    lemma_first_other_bounds(t, '#', 0);
    assert(t[n as int] == ' ');
    let f = first_other_from(t, '#', 0);
    if f < n {
        assert(t[f] == '#');
    }
    let rest = seq![' '] + title;
    assert(unicode_whitespace(' '));
    assert(first_non_ws_from(rest, 1) == 1);
    assert(first_non_ws_from(rest, 0) == 1);
    assert(rest.subrange(1, rest.len() as int) =~= title);
    assert(end_non_ws(title, title.len() as int) == title.len());
    assert(title.take(title.len() as int) =~= title);
    assert(trim(rest) == title);
    assert(end_other(title, '#', title.len() as int) == title.len());
    assert(trim_end_char(title, '#') == title);
    assert(first_non_ws_from(title, 0) == 0);
    assert(title.subrange(0, title.len() as int) =~= title);
}

/// Trailing `#` marks stop at the first other character.
proof fn lemma_end_other_run(x: Seq<char>, start: int, j: int)
    requires
        0 < start <= j <= x.len(),
        x[start - 1] != '#',
        forall|i: int| start <= i < x.len() ==> #[trigger] x[i] == '#',
    ensures
        end_other(x, '#', j) == start,
    decreases j - start,
{
    if j > start {
        lemma_end_other_run(x, start, j - 1);
    }
}

/// ATX headings have one to six markers: a line of `n` `#` characters
/// (1 <= n <= 6), a space and a title that neither starts nor ends with
/// whitespace nor ends with `#` is a heading of level `n` with that title
/// (`#### Options` is a level-4 heading `Options`), also when a space and a
/// closing run of `#` follow it, and seven markers make no heading.
pub proof fn law_atx_heading_levels_run_from_one_to_six(n: nat, title: Seq<char>, k: nat)
    requires
        title.len() > 0,
        !unicode_whitespace(title[0]),
        !unicode_whitespace(title.last()),
        title.last() != '#',
    ensures
        1 <= n <= 6 ==> atx_heading_spec(Seq::new(n, |i: int| '#') + seq![' '] + title) == Some((n, title)),
        atx_heading_spec(Seq::new(7, |i: int| '#') + seq![' '] + title) is None,
        1 <= n <= 6 && k > 0 ==> atx_heading_spec(
            Seq::new(n, |i: int| '#') + seq![' '] + title + seq![' '] + Seq::new(k, |i: int| '#'),
        ) == Some((n, title)),
{
    lemma_marked_line(n, title);
    lemma_marked_line(7, title);
    if 1 <= n <= 6 && k > 0 {
        let closed = marked_line(n, title) + seq![' '] + Seq::new(k, |i: int| '#');
        assert(closed =~= Seq::new(n, |i: int| '#') + seq![' '] + title + seq![' '] + Seq::new(k, |i: int| '#'));
        lemma_first_other_bounds(closed, '#', 0);
        assert(closed[n as int] == ' ');
        let f = first_other_from(closed, '#', 0);
        if f < n {
            assert(closed[f] == '#');
        }
        let rest = closed.subrange(n as int, closed.len() as int);
        let body = title + seq![' '] + Seq::new(k, |i: int| '#');
        assert(rest =~= seq![' '] + body);
        assert(unicode_whitespace(' '));
        assert(first_non_ws_from(rest, 1) == 1);
        assert(first_non_ws_from(rest, 0) == 1);
        assert(rest.subrange(1, rest.len() as int) =~= body);
        assert(end_non_ws(body, body.len() as int) == body.len());
        assert(body.take(body.len() as int) =~= body);
        assert(trim(rest) == body);
        let start = (title.len() + 1) as int;
        lemma_end_other_run(body, start, body.len() as int);
        let spaced = title + seq![' '];
        assert(body.take(start) =~= spaced);
        assert(trim_end_char(body, '#') == spaced);
        assert(first_non_ws_from(spaced, 0) == 0);
        assert(spaced.subrange(0, spaced.len() as int) =~= spaced);
        assert(end_non_ws(spaced, title.len() as int) == title.len());
        assert(end_non_ws(spaced, spaced.len() as int) == title.len());
        assert(spaced.take(title.len() as int) =~= title);
        assert(trim(spaced) == title);
    }
}

/// Every ATX heading starts with its level's count of `#` (1 to 6) followed
/// by whitespace.
pub proof fn law_atx_headings_start_with_their_markers(t: Seq<char>)
    ensures
        atx_heading_spec(t) matches Some((level, _)) ==> 1 <= level <= 6 && level < t.len() && (forall|k: int|
            0 <= k < level ==> t[k] == '#') && unicode_whitespace(t[level as int]),
{
    lemma_first_other_bounds(t, '#', 0);
}

/// A multi-word search asks for every word: a query of one word `b` is the
/// prefix term `"b"*`, and adding a word `b` (after non-word characters) to a
/// query that has words adds ` AND "b"*` to its FTS query, so the query of
/// the words w1..wn is `"w1"* AND ... AND "wn"*`. Among ASCII characters
/// the word characters are the letters, the digits and `_`.
pub proof fn law_search_words_are_conjoined(q: Seq<char>, sep: Seq<char>, b: Seq<char>, c: char)
    requires
        sep.len() > 0,
        forall|k: int| 0 <= k < sep.len() ==> !word_char(#[trigger] sep[k]),
        b.len() > 0,
        forall|k: int| 0 <= k < b.len() ==> word_char(#[trigger] b[k]),
    ensures
        fts_query_spec(b) == Some(seq!['"'] + b + seq!['"', '*']),
        fts_query_spec(q) matches Some(prev) ==> fts_query_spec(q + sep + b) == Some(
            prev + " AND "@ + seq!['"'] + b + seq!['"', '*'],
        ),
        fts_query_spec(q) is None ==> fts_query_spec(q + sep + b) == fts_query_spec(b),
        (c as u32) < 128 ==> (word_char(c) <==> ('a' <= c <= 'z' || 'A' <= c <= 'Z' || '0' <= c <= '9' || c
            == '_')),
{
    let f = |w: Seq<char>| fts_term(w);
    lemma_tokens_last_word(b, 0, 0, Seq::empty());
    assert(b.subrange(0, 0) =~= Seq::<char>::empty());
    assert(b.subrange(0, b.len() as int) =~= b);
    assert(word_tokens(b) =~= seq![b]);
    assert(seq![b].map_values(f) =~= seq![fts_term(b)]);
    lemma_tokens_append_word(q, sep, b);
    let t = word_tokens(q);
    assert(t.push(b).map_values(f) =~= t.map_values(f).push(fts_term(b)));
    assert(t.map_values(f).push(fts_term(b)).drop_last() =~= t.map_values(f));
    if t.len() == 0 {
        assert(t.push(b) =~= seq![b]);
    }
    assert(fts_term(b) =~= seq!['"'] + b + seq!['"', '*']);
}

/// Spring mapping annotations name their verbs: a text that starts with
/// `@GetMapping`, `@PostMapping`, `@PutMapping`, `@PatchMapping` or
/// `@DeleteMapping` declares a `GET`, `POST`, `PUT`, `PATCH` or `DELETE`
/// route, and a text that does not start with `@` declares none.
pub proof fn law_spring_mappings_name_their_verbs(rest: Seq<char>, t: Seq<char>)
    ensures
        spring_mapping("@GetMapping"@ + rest) == Some(("@GetMapping"@, "GET"@)),
        spring_mapping("@PostMapping"@ + rest) == Some(("@PostMapping"@, "POST"@)),
        spring_mapping("@PutMapping"@ + rest) == Some(("@PutMapping"@, "PUT"@)),
        spring_mapping("@PatchMapping"@ + rest) == Some(("@PatchMapping"@, "PATCH"@)),
        spring_mapping("@DeleteMapping"@ + rest) == Some(("@DeleteMapping"@, "DELETE"@)),
        (t.len() == 0 || t[0] != '@') ==> spring_mapping(t) is None,
{
    reveal_strlit("@GetMapping");
    reveal_strlit("@PostMapping");
    reveal_strlit("@PutMapping");
    reveal_strlit("@PatchMapping");
    reveal_strlit("@DeleteMapping");
    let names = seq!["@GetMapping"@, "@PostMapping"@, "@PutMapping"@, "@PatchMapping"@, "@DeleteMapping"@];
    assert forall|i: int| 0 <= i < 5 implies (names[i] + rest).take(names[i].len() as int) =~= names[i] by {}
    assert(("@GetMapping"@ + rest).take(11) =~= "@GetMapping"@);
    assert(("@PostMapping"@ + rest).take(12) =~= "@PostMapping"@);
    assert(("@PutMapping"@ + rest).take(11) =~= "@PutMapping"@);
    assert(("@PatchMapping"@ + rest).take(13) =~= "@PatchMapping"@);
    assert(("@DeleteMapping"@ + rest).take(14) =~= "@DeleteMapping"@);
    assert(("@PostMapping"@ + rest)[1] == 'P' && ("@PostMapping"@ + rest)[2] == 'o');
    assert(("@PutMapping"@ + rest)[1] == 'P' && ("@PutMapping"@ + rest)[2] == 'u');
    assert(("@PatchMapping"@ + rest)[1] == 'P' && ("@PatchMapping"@ + rest)[2] == 'a');
    assert(("@DeleteMapping"@ + rest)[1] == 'D');
    if t.len() == 0 || t[0] != '@' {
        if t.len() > 0 {
            assert(t.take(1)[0] != '@');
        }
    }
}

/// The walk collects exactly the regular files of a supported language
/// whose size is known and at most 2 MiB.
pub proof fn law_walk_collects_small_supported_files(is_file: bool, supported: bool, size: Option<u64>)
    ensures
        collects_file_spec(is_file, supported, size) <==> (is_file && supported && size is Some && size->Some_0
            <= 2 * 1024 * 1024),
{
}

/// A stored path is stale exactly when the current walk no longer yields
/// it: the stale paths are the stored paths missing from the walk.
pub proof fn law_stale_paths_are_the_vanished_ones(stored: Seq<Seq<char>>, current: Seq<Seq<char>>, p: Seq<char>)
    ensures
        stale_paths_spec(stored, current).contains(p) <==> (stored.contains(p) && !current.contains(p)),
    decreases stored.len(),
{
    broadcast use vstd::seq_lib::group_seq_properties;

    if stored.len() > 0 {
        law_stale_paths_are_the_vanished_ones(stored.drop_last(), current, p);
        assert(stored =~= stored.drop_last().push(stored.last()));
    }
}

/// A path filter names a whole directory: a prefix matches itself and every
/// path below it (`prefix/...`), but not a path that merely continues its
/// last name (`src` does not match `src-old`), and never a path that does
/// not start with it.
pub proof fn law_path_prefixes_name_whole_directories(prefix: Seq<char>, rest: Seq<char>, c: char, path: Seq<char>)
    ensures
        path_matches_prefix_spec(prefix, prefix),
        path_matches_prefix_spec(prefix + seq!['/'] + rest, prefix),
        c != '/' ==> !path_matches_prefix_spec(prefix + seq![c] + rest, prefix),
        path_matches_prefix_spec(path, prefix) ==> crate::text::starts_with(path, prefix),
{
    assert((prefix + seq!['/'] + rest).take(prefix.len() as int) =~= prefix);
    assert((prefix + seq!['/'] + rest)[prefix.len() as int] == '/');
    assert((prefix + seq![c] + rest)[prefix.len() as int] == c);
    assert((prefix + seq![c] + rest).len() != prefix.len());
    assert(prefix.take(prefix.len() as int) =~= prefix);
}

proof fn lemma_parent_search_nearest(hs: Seq<HeadingSpec>, i: int, j: int)
    requires
        0 <= j <= i < hs.len(),
    ensures
        parent_search(hs, i, j) == -1 ==> forall|k: int| 0 <= k < j ==> #[trigger] hs[k].level >= hs[i].level,
        parent_search(hs, i, j) != -1 ==> 0 <= parent_search(hs, i, j) < j && hs[parent_search(hs, i, j)].level
            < hs[i].level && forall|k: int|
            parent_search(hs, i, j) < k < j ==> #[trigger] hs[k].level >= hs[i].level,
    decreases j,
{
    if j > 0 {
        lemma_parent_search_nearest(hs, i, j - 1);
    }
}

/// A heading's parent is the nearest earlier heading of a lower level (none
/// when every earlier heading is of its level or deeper), and its qualified
/// name is its parent's qualified name, ` > ` and its title (`Guide >
/// Options`), or its bare title when it has no parent.
pub proof fn law_headings_nest_under_the_nearest_shallower_heading(hs: Seq<HeadingSpec>, i: int)
    requires
        0 <= i < hs.len(),
    ensures
        parent_of(hs, i) == -1 ==> (forall|k: int| 0 <= k < i ==> #[trigger] hs[k].level >= hs[i].level)
            && qualified_name_of(hs, i) == hs[i].title,
        parent_of(hs, i) != -1 ==> ({
            let p = parent_of(hs, i);
            &&& 0 <= p < i
            &&& hs[p].level < hs[i].level
            &&& forall|k: int| p < k < i ==> #[trigger] hs[k].level >= hs[i].level
            &&& qualified_name_of(hs, i) == qualified_name_of(hs, p) + " > "@ + hs[i].title
        }),
{
    reveal_strlit(" > ");
    lemma_parent_search_nearest(hs, i, i);
    assert(seq![' ', '>', ' '] =~= " > "@);
}

proof fn lemma_fit_prefix_fits(s: Seq<char>, max: nat, k: int)
    requires
        0 <= k <= s.len(),
        utf8_len(s.take(k)) <= max,
    ensures
        k <= fit_prefix(s, max, k) <= s.len(),
        utf8_len(s.take(fit_prefix(s, max, k))) <= max,
    decreases s.len() - k,
{
    if k < s.len() && utf8_len(s.take(k + 1)) <= max {
        lemma_fit_prefix_fits(s, max, k + 1);
    }
}

/// Section bodies are bounded: a body is the section's trimmed text when
/// that fits in 4096 UTF-8 bytes, and otherwise a prefix of it of at most
/// 4096 bytes followed by `...`.
pub proof fn law_section_bodies_are_bounded(lines: Seq<Seq<char>>, start: int, end: int)
    requires
        0 <= start <= end <= lines.len(),
    ensures
        section_body(lines, start, end) matches Some(b) ==> ({
            let text = trim(join(lines.subrange(start, end), seq!['\n']));
            &&& utf8_len(b) <= 4099
            &&& utf8_len(text) <= 4096 ==> b == text
            &&& utf8_len(text) > 4096 ==> exists|k: int|
                0 <= k <= text.len() && b == text.take(k) + "..."@ && utf8_len(text.take(k)) <= 4096
        }),
{
    reveal_strlit("...");
    let text = trim(join(lines.subrange(start, end), seq!['\n']));
    if text.len() > 0 && utf8_len(text) > 4096 {
        assert(text.take(0) =~= Seq::<char>::empty());
        lemma_fit_prefix_fits(text, 4096, 0);
        let k = fit_prefix(text, 4096, 0);
        let b = text.take(k) + seq!['.', '.', '.'];
        crate::text::lemma_utf8_len_append(text.take(k), seq!['.', '.', '.']);
        assert(utf8_len(seq!['.', '.', '.']) == 3) by {
            assert(seq!['.', '.', '.'].drop_last() =~= seq!['.', '.']);
            assert(seq!['.', '.'].drop_last() =~= seq!['.']);
            assert(seq!['.'].drop_last() =~= Seq::<char>::empty());
            assert(utf8_len(Seq::<char>::empty()) == 0);
            assert(('.' as u32) < 0x80);
            assert(utf8_len(seq!['.']) == 1);
            assert(utf8_len(seq!['.', '.']) == 2);
        }
        assert(seq!['.', '.', '.'] =~= "..."@);
    }
}

proof fn lemma_boundary_scan(hs: Seq<HeadingSpec>, n_lines: int, i: int, j: int)
    requires
        0 <= i < j <= hs.len(),
    ensures
        ({
            let b = boundary_from(hs, n_lines, i, j);
            ||| b == n_lines && forall|k: int| j <= k < hs.len() ==> #[trigger] hs[k].level > hs[i].level
            ||| exists|jb: int|
                j <= jb < hs.len() && b == hs[jb].line - 1 && hs[jb].level <= hs[i].level && forall|k: int|
                    j <= k < jb ==> #[trigger] hs[k].level > hs[i].level
        }),
    decreases hs.len() - j,
{
    if j < hs.len() && hs[j].level > hs[i].level {
        lemma_boundary_scan(hs, n_lines, i, j + 1);
        let b = boundary_from(hs, n_lines, i, j);
        if b != n_lines || !(forall|k: int| j + 1 <= k < hs.len() ==> #[trigger] hs[k].level > hs[i].level) {
            let jb = choose|jb: int|
                j + 1 <= jb < hs.len() && b == hs[jb].line - 1 && hs[jb].level <= hs[i].level && forall|k: int|
                    j + 1 <= k < jb ==> #[trigger] hs[k].level > hs[i].level;
            assert(j <= jb < hs.len() && b == hs[jb].line - 1 && hs[jb].level <= hs[i].level && forall|k: int|
                j <= k < jb ==> #[trigger] hs[k].level > hs[i].level);
        }
    }
}

/// A section runs from its heading to the line before the next heading of
/// the same or a shallower level, or to the end of the document: it starts
/// on its heading's line, every later heading inside it is deeper, and a
/// section that stops early stops right before a heading of its level or a
/// shallower one (`# Guide` then `#### Options` leaves `Options` inside
/// `Guide`).
pub proof fn law_sections_end_before_the_next_heading_of_their_level(
    hs: Seq<HeadingSpec>,
    n_lines: int,
    i: int,
)
    requires
        0 <= i < hs.len(),
        forall|a: int, b: int| 0 <= a < b < hs.len() ==> #[trigger] hs[a].line < #[trigger] hs[b].line,
        forall|a: int| 0 <= a < hs.len() ==> #[trigger] hs[a].line <= n_lines,
    ensures
        hs[i].line <= section_end(hs, n_lines, i) <= n_lines,
        forall|j: int|
            i < j < hs.len() && #[trigger] hs[j].line <= section_end(hs, n_lines, i) ==> hs[j].level
                > hs[i].level,
        section_end(hs, n_lines, i) < n_lines ==> exists|j: int|
            i < j < hs.len() && #[trigger] hs[j].line == section_end(hs, n_lines, i) + 1 && hs[j].level
                <= hs[i].level,
{
    lemma_boundary_scan(hs, n_lines, i, i + 1);
    let b = boundary_from(hs, n_lines, i, i + 1);
    if !(b == n_lines && forall|k: int| i + 1 <= k < hs.len() ==> #[trigger] hs[k].level > hs[i].level) {
        let jb = choose|jb: int|
            i + 1 <= jb < hs.len() && b == hs[jb].line - 1 && hs[jb].level <= hs[i].level && forall|k: int|
                i + 1 <= k < jb ==> #[trigger] hs[k].level > hs[i].level;
        assert(hs[i].line < hs[jb].line);
        assert forall|j: int|
            i < j < hs.len() && #[trigger] hs[j].line <= section_end(hs, n_lines, i) implies hs[j].level
                > hs[i].level by {
            if j >= jb {
                if j > jb {
                    assert(hs[jb].line < hs[j].line);
                }
            }
        }
    }
}

/// The headings of a document lie on increasing lines within it.
pub proof fn lemma_headings_on_increasing_lines(lines: Seq<Seq<char>>, n: int)
    requires
        0 <= n <= lines.len(),
    ensures
        forall|a: int, b: int|
            0 <= a < b < headings_upto(lines, n).len() ==> #[trigger] headings_upto(lines, n)[a].line
                < #[trigger] headings_upto(lines, n)[b].line,
        forall|a: int|
            0 <= a < headings_upto(lines, n).len() ==> 1 <= #[trigger] headings_upto(lines, n)[a].line <= n,
    decreases n,
{
    if n > 0 {
        lemma_headings_on_increasing_lines(lines, n - 1);
        let prev = headings_upto(lines, n - 1);
        let cur = headings_upto(lines, n);
        match heading_at(lines, n - 1) {
            Some(h) => {
                assert(cur == prev.push(h));
                assert(h.line == n);
                assert forall|a: int| 0 <= a < cur.len() implies 1 <= #[trigger] cur[a].line <= n by {
                    if a < prev.len() {
                        assert(cur[a] == prev[a]);
                    }
                }
                assert forall|a: int, b: int| 0 <= a < b < cur.len() implies #[trigger] cur[a].line
                    < #[trigger] cur[b].line by {
                    assert(cur[a] == prev[a]);
                    if b < prev.len() {
                        assert(cur[b] == prev[b]);
                    }
                }
            },
            None => {
                assert(cur == prev);
            },
        }
    }
}

/// A route literal loses exactly its delimiting quotes: a text between two
/// equal quotes (`'`, `"` or a backtick) is the route, and a text that does
/// not start with a quote is no literal.
pub proof fn law_route_literals_lose_their_quotes(q: char, p: Seq<char>, t: Seq<char>)
    ensures
        (q == '\'' || q == '"' || q == '`') ==> unquote_spec(seq![q] + p + seq![q]) == Some(p),
        (t.len() == 0 || !(t[0] == '\'' || t[0] == '"' || t[0] == '`')) ==> unquote_spec(t) is None,
{
    let w = seq![q] + p + seq![q];
    assert(w.subrange(1, w.len() - 1) =~= p);
}

/// The receivers that hold a router: `app`, `api`, `router`, `route`,
/// `routes`, `server`, `fastify`, `hono`, and any name ending in `router` or
/// `routes` (`userRouter`, `adminroutes`).
pub proof fn law_router_receiver_names(t: Seq<char>, stem: Seq<char>)
    ensures
        (t == "app"@ || t == "api"@ || t == "router"@ || t == "route"@ || t == "routes"@ || t == "server"@ || t
            == "fastify"@ || t == "hono"@) ==> is_router_name(t),
        is_router_name(stem + "router"@),
        is_router_name(stem + "routes"@),
{
    reveal_strlit("router");
    reveal_strlit("routes");
    assert((stem + "router"@).skip(stem.len() as int) =~= "router"@);
    assert((stem + "routes"@).skip(stem.len() as int) =~= "routes"@);
}

/// A search page leads with the exact-name matches: its `i`-th result is the
/// `offset + i`-th exact match while exact matches last, every later result
/// is a full-text match of another name, the page holds at most `limit`
/// results, and a next page starts `limit` further on; full-text matches are
/// asked for only when the exact matches leave room, after those that
/// earlier pages showed.
pub proof fn law_search_pages_lead_with_exact_matches(
    exact: Seq<NodeView>,
    fetched: Seq<NodeView>,
    name: Seq<char>,
    offset: usize,
    limit: usize,
)
    ensures
        ({
            let planned = exact_on_page(exact, offset, limit);
            let (results, next) = finished_page(planned + other_named(fetched, name), offset, limit);
            &&& results.len() <= limit
            &&& forall|i: int| 0 <= i < results.len() && offset + i < exact.len() ==> #[trigger] results[i]
                == exact[offset + i]
            &&& forall|i: int|
                0 <= i < results.len() && offset + i >= exact.len() ==> (#[trigger] results[i]).name != name
            &&& next matches Some(n) ==> n == sat_add(offset, limit)
            &&& (fts_request(exact.len(), planned.len(), offset, limit) matches Some((o, _)) ==> o + exact.len()
                >= offset && (offset >= exact.len() ==> o == offset - exact.len()))
            &&& (offset + limit < exact.len() ==> fts_request(exact.len(), planned.len(), offset, limit) is None)
        }),
{
    let planned = exact_on_page(exact, offset, limit);
    let found = planned + other_named(fetched, name);
    crate::service::pages::lemma_other_named_excludes(fetched, name);
    assert forall|i: int| 0 <= i < found.len() && offset + i >= exact.len() implies (#[trigger] found[i]).name
        != name by {
        assert(i >= planned.len());
        assert(found[i] == other_named(fetched, name)[i - planned.len()]);
    }
}

/// Whether `a` comes no later than `b` in a file: by start line, then start
/// column.
pub open spec fn at_or_before(a: NodeView, b: NodeView) -> bool {
    a.start_line < b.start_line || (a.start_line == b.start_line && a.start_column <= b.start_column)
}

proof fn lemma_insert_pos_scan(s: Seq<NodeView>, x: NodeView, i: int)
    requires
        0 <= i <= s.len(),
    ensures
        i <= insert_pos(s, x, source_order(), i) <= s.len(),
        forall|k: int| i <= k < insert_pos(s, x, source_order(), i) ==> at_or_before(#[trigger] s[k], x),
        insert_pos(s, x, source_order(), i) < s.len() ==> !at_or_before(s[insert_pos(s, x, source_order(), i)], x),
    decreases s.len() - i,
{
    if i < s.len() && !(source_order())(x, s[i]) {
        lemma_insert_pos_scan(s, x, i + 1);
    }
}

proof fn lemma_source_sort(s: Seq<NodeView>)
    ensures
        forall|i: int, j: int|
            0 <= i < j < stable_sort(s, source_order()).len() ==> at_or_before(
                #[trigger] stable_sort(s, source_order())[i],
                #[trigger] stable_sort(s, source_order())[j],
            ),
        forall|n: NodeView| stable_sort(s, source_order()).contains(n) <==> s.contains(n),
        stable_sort(s, source_order()).len() == s.len(),
    decreases s.len(),
{
    if s.len() > 0 {
        let t = stable_sort(s.drop_last(), source_order());
        let x = s.last();
        lemma_source_sort(s.drop_last());
        lemma_insert_pos_scan(t, x, 0);
        let p = insert_pos(t, x, source_order(), 0);
        let r = t.take(p) + seq![x] + t.skip(p);
        assert(r == stable_sort(s, source_order()));
        assert forall|i: int| 0 <= i < r.len() implies #[trigger] r[i] == (if i < p {
            t[i]
        } else if i == p {
            x
        } else {
            t[i - 1]
        }) by {}
        assert forall|i: int, j: int| 0 <= i < j < r.len() implies at_or_before(#[trigger] r[i], #[trigger] r[j]) by {
            if j < p {
            } else if j == p {
            } else if i < p {
                assert(at_or_before(t[i], x));
                assert(at_or_before(t[i], t[j - 1]));
            } else if i == p {
                assert(!at_or_before(t[p], x));
                if j - 1 > p {
                    assert(at_or_before(t[p], t[j - 1]));
                }
            } else {
                assert(at_or_before(t[i - 1], t[j - 1]));
            }
        }
        assert forall|n: NodeView| r.contains(n) <==> s.contains(n) by {
            if r.contains(n) {
                let i = choose|i: int| 0 <= i < r.len() && r[i] == n;
                if i < p {
                    assert(t.contains(n) && s.drop_last().contains(t[i]));
                } else if i > p {
                    assert(t[i - 1] == n && s.drop_last().contains(n));
                }
                if n != x {
                    let k = choose|k: int| 0 <= k < s.drop_last().len() && s.drop_last()[k] == n;
                    assert(s[k] == n);
                } else {
                    assert(s[s.len() - 1] == n);
                }
            }
            if s.contains(n) {
                let k = choose|k: int| 0 <= k < s.len() && s[k] == n;
                if k == s.len() - 1 {
                    assert(r[p] == n);
                } else {
                    assert(s.drop_last()[k] == n);
                    assert(s.drop_last().contains(n));
                    assert(t.contains(n));
                    let m = choose|m: int| 0 <= m < t.len() && t[m] == n;
                    if m < p {
                        assert(r[m] == n);
                    } else {
                        assert(r[m + 1] == n);
                    }
                }
            }
        }
    }
}

proof fn lemma_push_contains(r: Seq<NodeView>, x: NodeView, n: NodeView)
    ensures
        r.push(x).contains(n) <==> r.contains(n) || x == n,
{
    if r.push(x).contains(n) {
        let i = choose|i: int| 0 <= i < r.push(x).len() && r.push(x)[i] == n;
        if i < r.len() {
            assert(r[i] == n);
        }
    }
    if r.contains(n) {
        let i = choose|i: int| 0 <= i < r.len() && r[i] == n;
        assert(r.push(x)[i] == n);
    }
    if x == n {
        assert(r.push(x)[r.len() as int] == n);
    }
}

/// The members of a filtered sequence are the members that pass the filter.
proof fn lemma_filter_members(s: Seq<NodeView>, pred: spec_fn(NodeView) -> bool, n: NodeView)
    ensures
        s.filter(pred).contains(n) <==> s.contains(n) && pred(n),
    decreases s.len(),
{
    reveal(Seq::filter);
    if s.len() > 0 {
        lemma_filter_members(s.drop_last(), pred, n);
        lemma_push_contains(s.drop_last(), s.last(), n);
        lemma_push_contains(s.drop_last().filter(pred), s.last(), n);
        assert(s =~= s.drop_last().push(s.last()));
    }
}

proof fn lemma_of_kind_filters(nodes: Seq<NodeView>, kind: Option<NodeKind>)
    ensures
        of_kind(nodes, kind) == nodes.filter(|n: NodeView| kind is None || n.kind == kind->Some_0),
    decreases nodes.len(),
{
    reveal(Seq::filter);
    if nodes.len() > 0 {
        lemma_of_kind_filters(nodes.drop_last(), kind);
    }
}

/// An outline lists a file's symbols in source order (by start line, then
/// start column): exactly the symbols of the asked kind (all kinds when none
/// is asked) that the scope keeps, each once per occurrence.
pub proof fn law_outlines_list_symbols_in_source_order(
    file_nodes: Seq<NodeView>,
    kind: Option<NodeKind>,
    scope: SymbolScope,
)
    ensures
        ({
            let out = outline_symbols(file_nodes, kind, scope);
            &&& forall|i: int, j: int| 0 <= i < j < out.len() ==> at_or_before(#[trigger] out[i], #[trigger] out[j])
            &&& forall|n: NodeView|
                out.contains(n) <==> in_scope(of_kind(file_nodes, kind), scope, file_nodes).contains(n)
            &&& forall|n: NodeView| #[trigger] out.contains(n) ==> file_nodes.contains(n) && (kind is None || n.kind
                == kind->Some_0)
        }),
{
    let kinds = of_kind(file_nodes, kind);
    lemma_source_sort(in_scope(kinds, scope, file_nodes));
    lemma_of_kind_filters(file_nodes, kind);
    law_discovery_scopes_differ_in_locals(kinds, file_nodes);
    let kp = |n: NodeView| kind is None || n.kind == kind->Some_0;
    let pred = |n: NodeView| !local_in(n, file_nodes);
    let out = outline_symbols(file_nodes, kind, scope);
    assert forall|n: NodeView| #[trigger] out.contains(n) implies file_nodes.contains(n) && (kind is None || n.kind
        == kind->Some_0) by {
        lemma_filter_members(file_nodes, kp, n);
        lemma_filter_members(kinds, pred, n);
    }
}

/// An internal link `#x` points at the last heading whose anchor is the
/// anchor of `x` (none when no heading has it), and a link on a line belongs
/// to the last heading that starts on or before that line.
pub proof fn law_internal_links_join_matching_headings(hs: Seq<HeadingSpec>, t: Seq<char>, line: int, n: int)
    requires
        0 <= n <= hs.len(),
    ensures
        anchor_target(hs, t, n) == -1 <==> forall|k: int| 0 <= k < n ==> #[trigger] heading_anchor(hs, k) != t,
        anchor_target(hs, t, n) != -1 ==> 0 <= anchor_target(hs, t, n) < n && heading_anchor(
            hs,
            anchor_target(hs, t, n),
        ) == t && forall|k: int| anchor_target(hs, t, n) < k < n ==> #[trigger] heading_anchor(hs, k) != t,
        source_heading(hs, line, n) == -1 <==> forall|k: int| 0 <= k < n ==> #[trigger] hs[k].line > line,
        source_heading(hs, line, n) != -1 ==> 0 <= source_heading(hs, line, n) < n && hs[source_heading(
            hs,
            line,
            n,
        )].line <= line && forall|k: int| source_heading(hs, line, n) < k < n ==> #[trigger] hs[k].line > line,
    decreases n,
{
    if n > 0 {
        law_internal_links_join_matching_headings(hs, t, line, n - 1);
    }
}

/// Every internal-link edge from heading `src` on `line` is a `references`
/// edge to the heading that its destination's anchor names.
pub proof fn law_link_edges_reference_the_named_heading(
    file: Seq<char>,
    hs: Seq<HeadingSpec>,
    src: int,
    line: int,
    dests: Seq<Seq<char>>,
)
    ensures
        forall|k: int|
            0 <= k < link_edges_for(file, hs, src, line, dests).len() ==> exists|d: int|
                0 <= d < dests.len() && 0 <= anchor_target(hs, markdown_anchor_of(dests[d]), hs.len() as int)
                    && #[trigger] link_edges_for(file, hs, src, line, dests)[k] == link_edge(
                    file,
                    hs,
                    src,
                    anchor_target(hs, markdown_anchor_of(dests[d]), hs.len() as int),
                    line,
                    markdown_anchor_of(dests[d]),
                ),
    decreases dests.len(),
{
    if dests.len() > 0 {
        let front = dests.drop_last();
        law_link_edges_reference_the_named_heading(file, hs, src, line, front);
        let prev = link_edges_for(file, hs, src, line, front);
        let cur = link_edges_for(file, hs, src, line, dests);
        assert forall|k: int| 0 <= k < cur.len() implies exists|d: int|
            0 <= d < dests.len() && 0 <= anchor_target(hs, markdown_anchor_of(dests[d]), hs.len() as int)
                && #[trigger] cur[k] == link_edge(
                file,
                hs,
                src,
                anchor_target(hs, markdown_anchor_of(dests[d]), hs.len() as int),
                line,
                markdown_anchor_of(dests[d]),
            ) by {
            if k < prev.len() {
                assert(cur[k] == prev[k]);
                let d = choose|d: int|
                    0 <= d < front.len() && 0 <= anchor_target(hs, markdown_anchor_of(front[d]), hs.len() as int)
                        && #[trigger] prev[k] == link_edge(
                        file,
                        hs,
                        src,
                        anchor_target(hs, markdown_anchor_of(front[d]), hs.len() as int),
                        line,
                        markdown_anchor_of(front[d]),
                    );
                assert(dests[d] == front[d]);
            } else {
                assert(dests[dests.len() - 1] == dests.last());
            }
        }
    }
}

/// Whether `c` is an ASCII letter, digit or `_`.
pub open spec fn ascii_word_char(c: char) -> bool {
    ('a' <= c <= 'z') || ('A' <= c <= 'Z') || ('0' <= c <= '9') || c == '_'
}

/// The anchor builder run over `s` from the state `st`.
spec fn anchor_run(st: (Seq<char>, bool), s: Seq<char>) -> (Seq<char>, bool)
    decreases s.len(),
{
    if s.len() == 0 {
        st
    } else {
        let prev = anchor_run(st, s.drop_last());
        anchor_step(prev.0, prev.1, s.last())
    }
}

proof fn lemma_anchor_run_start(s: Seq<char>)
    ensures
        anchor_fold(s) == anchor_run((Seq::empty(), false), s),
    decreases s.len(),
{
    if s.len() > 0 {
        lemma_anchor_run_start(s.drop_last());
    }
}

proof fn lemma_anchor_run_concat(st: (Seq<char>, bool), x: Seq<char>, y: Seq<char>)
    ensures
        anchor_run(st, x + y) == anchor_run(anchor_run(st, x), y),
    decreases y.len(),
{
    if y.len() == 0 {
        assert(x + y =~= x);
    } else {
        lemma_anchor_run_concat(st, x, y.drop_last());
        assert((x + y).drop_last() =~= x + y.drop_last());
        assert((x + y).last() == y.last());
    }
}

proof fn lemma_anchor_run_word(a: Seq<char>, pending: bool, w: Seq<char>)
    requires
        w.len() > 0,
        forall|k: int| 0 <= k < w.len() ==> crate::indexer::markdown::anchor_char(#[trigger] w[k]),
    ensures
        anchor_run((a, pending), w) == ((if pending && a.len() > 0 {
            a.push('-')
        } else {
            a
        }) + w, false),
    decreases w.len(),
{
    assert(crate::indexer::markdown::anchor_char(w[w.len() - 1]));
    if w.len() > 1 {
        lemma_anchor_run_word(a, pending, w.drop_last());
        let base = if pending && a.len() > 0 {
            a.push('-')
        } else {
            a
        };
        assert((base + w.drop_last()).push(w.last()) =~= base + w);
    } else {
        assert(w.drop_last() =~= Seq::<char>::empty());
        assert(anchor_run((a, pending), Seq::<char>::empty()) == (a, pending));
        let base = if pending && a.len() > 0 {
            a.push('-')
        } else {
            a
        };
        assert(base.push(w[0]) =~= base + w);
    }
}

proof fn lemma_lower_all_ascii(s: Seq<char>)
    requires
        forall|k: int| 0 <= k < s.len() ==> (#[trigger] s[k] as u32) < 128,
    ensures
        lower_all(s) == crate::text::ascii_lowercase(s),
    decreases s.len(),
{
    if s.len() > 0 {
        lemma_lower_all_ascii(s.drop_last());
        assert(crate::text::ascii_lowercase(s) =~= crate::text::ascii_lowercase(s.drop_last()) + seq![
            crate::text::ascii_lower(s.last()),
        ]);
    }
}

proof fn lemma_lowered_word(w: Seq<char>)
    requires
        forall|k: int| 0 <= k < w.len() ==> ascii_word_char(#[trigger] w[k]),
    ensures
        forall|k: int| 0 <= k < w.len() ==> crate::indexer::markdown::anchor_char(
            #[trigger] crate::text::ascii_lowercase(w)[k],
        ) && crate::text::ascii_lowercase(w)[k] != '-',
{
    assert forall|k: int| 0 <= k < w.len() implies crate::indexer::markdown::anchor_char(
        #[trigger] crate::text::ascii_lowercase(w)[k],
    ) && crate::text::ascii_lowercase(w)[k] != '-' by {
        let c = w[k];
        assert(crate::text::ascii_lowercase(w)[k] == crate::text::ascii_lower(c));
        if 'A' <= c <= 'Z' {
            assert('a' <= crate::text::ascii_lower(c) <= 'z');
        }
    }
}

/// Heading anchors are GitHub-style slugs: a word of ASCII letters, digits
/// and `_` is its own anchor in lower case (`Guide` gives `guide`), and two
/// such words separated by a space give the two lowercased words joined by
/// `-` (`Getting Started` gives `getting-started`).
pub proof fn law_heading_anchors_are_lowercase_slugs(a: Seq<char>, b: Seq<char>)
    requires
        a.len() > 0,
        b.len() > 0,
        forall|k: int| 0 <= k < a.len() ==> ascii_word_char(#[trigger] a[k]),
        forall|k: int| 0 <= k < b.len() ==> ascii_word_char(#[trigger] b[k]),
    ensures
        markdown_anchor_of(a) == crate::text::ascii_lowercase(a),
        markdown_anchor_of(a + seq![' '] + b) == crate::text::ascii_lowercase(a) + seq!['-']
            + crate::text::ascii_lowercase(b),
{
    let la = crate::text::ascii_lowercase(a);
    let lb = crate::text::ascii_lowercase(b);
    let ab = a + seq![' '] + b;
    assert forall|k: int| 0 <= k < ab.len() implies (#[trigger] ab[k] as u32) < 128 by {
        if k < a.len() {
            assert(ab[k] == a[k]);
        } else if k > a.len() {
            assert(ab[k] == b[k - a.len() - 1]);
        }
    }
    lemma_lower_all_ascii(a);
    lemma_lower_all_ascii(ab);
    assert(crate::text::ascii_lowercase(ab) =~= la + seq![' '] + lb);
    lemma_lowered_word(a);
    lemma_lowered_word(b);
    // one word
    lemma_anchor_run_start(la);
    lemma_anchor_run_word(Seq::empty(), false, la);
    assert(Seq::<char>::empty() + la =~= la);
    assert(la.last() != '-');
    assert(crate::text::end_other(la, '-', la.len() as int) == la.len());
    assert(la.take(la.len() as int) =~= la);
    // two words
    let l = la + seq![' '] + lb;
    lemma_anchor_run_start(l);
    lemma_anchor_run_concat((Seq::empty(), false), la + seq![' '], lb);
    lemma_anchor_run_concat((Seq::empty(), false), la, seq![' ']);
    assert(seq![' '].drop_last() =~= Seq::<char>::empty());
    assert(unicode_whitespace(' '));
    assert(!crate::indexer::markdown::anchor_char(' '));
    assert(anchor_run((la, false), Seq::<char>::empty()) == (la, false));
    assert(seq![' '].last() == ' ');
    assert(anchor_step(la, false, ' ') == (la, true));
    assert(anchor_run((la, false), seq![' ']) == (la, true));
    lemma_anchor_run_word(la, true, lb);
    let r = la.push('-') + lb;
    assert(r =~= la + seq!['-'] + lb);
    assert(r.last() == lb.last());
    assert(crate::text::end_other(r, '-', r.len() as int) == r.len());
    assert(r.take(r.len() as int) =~= r);
}

proof fn lemma_nodes_by_file(nodes: Seq<NodeView>, files: Seq<Seq<char>>, n: NodeView)
    ensures
        nodes_in_files(nodes, files).contains(n) <==> nodes.contains(n) && files.contains(n.file_path),
        nodes_outside_files(nodes, files).contains(n) <==> nodes.contains(n) && !files.contains(n.file_path),
    decreases nodes.len(),
{
    if nodes.len() > 0 {
        lemma_nodes_by_file(nodes.drop_last(), files, n);
        lemma_push_contains(nodes.drop_last(), nodes.last(), n);
        lemma_push_contains(nodes_in_files(nodes.drop_last(), files), nodes.last(), n);
        lemma_push_contains(nodes_outside_files(nodes.drop_last(), files), nodes.last(), n);
        assert(nodes =~= nodes.drop_last().push(nodes.last()));
    }
}

proof fn lemma_node_names_contains(nodes: Seq<NodeView>, x: Seq<char>)
    ensures
        node_names(nodes).contains(x) <==> exists|i: int| 0 <= i < nodes.len() && #[trigger] nodes[i].name == x,
{
    if node_names(nodes).contains(x) {
        let i = choose|i: int| 0 <= i < node_names(nodes).len() && node_names(nodes)[i] == x;
        assert(nodes[i].name == x);
    }
    if exists|i: int| 0 <= i < nodes.len() && #[trigger] nodes[i].name == x {
        let i = choose|i: int| 0 <= i < nodes.len() && #[trigger] nodes[i].name == x;
        assert(node_names(nodes)[i] == x);
    }
}

/// A run binds again exactly the names that it may have changed: the names
/// of the symbols of removed files, of the symbols it parsed and, in an
/// incremental run, of the symbols held before for the files it parsed
/// again; its cross-file index holds every symbol it parsed and, in an
/// incremental run, every symbol held before for a file it did not parse
/// again, and nothing else.
pub proof fn law_runs_rebind_every_changed_name(
    removed: Seq<NodeView>,
    existing: Seq<NodeView>,
    reparsed: Seq<Seq<char>>,
    parsed: Seq<NodeView>,
    incremental: bool,
    x: Seq<char>,
    n: NodeView,
)
    ensures
        changed_name_spec(removed, existing, reparsed, parsed, incremental, x) <==> ((exists|i: int|
            0 <= i < removed.len() && #[trigger] removed[i].name == x) || (exists|i: int|
            0 <= i < parsed.len() && #[trigger] parsed[i].name == x) || (incremental && exists|i: int|
            0 <= i < existing.len() && #[trigger] existing[i].name == x && reparsed.contains(existing[i].file_path))),
        pass_nodes_spec(parsed, existing, reparsed, incremental).contains(n) <==> (parsed.contains(n) || (
        incremental && existing.contains(n) && !reparsed.contains(n.file_path))),
{
    lemma_node_names_contains(removed, x);
    lemma_node_names_contains(parsed, x);
    let inside = nodes_in_files(existing, reparsed);
    lemma_node_names_contains(inside, x);
    if exists|i: int| 0 <= i < inside.len() && #[trigger] inside[i].name == x {
        let i = choose|i: int| 0 <= i < inside.len() && #[trigger] inside[i].name == x;
        lemma_nodes_by_file(existing, reparsed, inside[i]);
        let j = choose|j: int| 0 <= j < existing.len() && existing[j] == inside[i];
        assert(existing[j].name == x);
    }
    if exists|i: int|
        0 <= i < existing.len() && #[trigger] existing[i].name == x && reparsed.contains(existing[i].file_path) {
        let i = choose|i: int|
            0 <= i < existing.len() && #[trigger] existing[i].name == x && reparsed.contains(existing[i].file_path);
        lemma_nodes_by_file(existing, reparsed, existing[i]);
        assert(inside.contains(existing[i]));
        let j = choose|j: int| 0 <= j < inside.len() && inside[j] == existing[i];
        assert(inside[j].name == x);
    }
    lemma_nodes_by_file(existing, reparsed, n);
    let outside = nodes_outside_files(existing, reparsed);
    lemma_push_contains(parsed, n, n);
    if incremental {
        let all = parsed + outside;
        if all.contains(n) {
            let i = choose|i: int| 0 <= i < all.len() && all[i] == n;
            if i < parsed.len() {
                assert(parsed[i] == n);
            } else {
                assert(outside[i - parsed.len()] == n);
            }
        }
        if parsed.contains(n) {
            let i = choose|i: int| 0 <= i < parsed.len() && parsed[i] == n;
            assert(all[i] == n);
        }
        if outside.contains(n) {
            let i = choose|i: int| 0 <= i < outside.len() && outside[i] == n;
            assert(all[parsed.len() + i] == n);
        }
    }
}

/// Routes carry HTTP verbs and become endpoints named `VERB path`: a router
/// call declares a `GET`, `POST`, `PUT`, `PATCH`, `DELETE` or `HEAD` route,
/// a Spring annotation a `GET`, `POST`, `PUT`, `PATCH` or `DELETE` route
/// with no handler named, and the endpoint of a route is an endpoint symbol
/// named by its verb, a space and its path, on the route's lines.
pub proof fn law_routes_become_verb_path_endpoints(
    source: Seq<u8>,
    nodes: Seq<SyntaxNode>,
    call: SyntaxNode,
    text: Seq<char>,
    file_path: Seq<char>,
    language: Language,
    r: RouteView,
)
    ensures
        javascript_route(source, nodes, call) matches Some(jr) ==> (jr.verb == "GET"@ || jr.verb == "POST"@
            || jr.verb == "PUT"@ || jr.verb == "PATCH"@ || jr.verb == "DELETE"@ || jr.verb == "HEAD"@),
        java_route(text, call) matches Some(sr) ==> (sr.verb == "GET"@ || sr.verb == "POST"@ || sr.verb == "PUT"@
            || sr.verb == "PATCH"@ || sr.verb == "DELETE"@) && sr.handler_names.len() == 0,
        endpoint_node(file_path, language, r).name == r.verb + " "@ + r.path,
        endpoint_node(file_path, language, r).kind == NodeKind::Endpoint,
        endpoint_node(file_path, language, r).start_line == r.start_line,
        endpoint_node(file_path, language, r).end_line == r.end_line,
{
}

proof fn lemma_fence_count_run(lines: Seq<Seq<char>>, a: int, i: int)
    requires
        0 <= a < i <= lines.len(),
        fence_line(lines[a]),
        forall|k: int| a < k < i ==> !fence_line(#[trigger] lines[k]),
    ensures
        fence_count(lines, i) == fence_count(lines, a) + 1,
    decreases i - a,
{
    if i > a + 1 {
        lemma_fence_count_run(lines, a, i - 1);
    }
}

/// Fenced code holds no headings: a line opened by three backticks or three
/// tildes (after indentation) is a fence, and a line after a fence that
/// opens a block (an even number of fences before it) and before the next
/// fence is no heading, whatever it says.
pub proof fn law_fenced_code_holds_no_headings(lines: Seq<Seq<char>>, a: int, i: int, rest: Seq<char>)
    requires
        0 <= a < i < lines.len(),
        fence_line(lines[a]),
        fence_count(lines, a) % 2 == 0,
        forall|k: int| a < k < i ==> !fence_line(#[trigger] lines[k]),
    ensures
        heading_at(lines, i) is None,
        fence_line(seq!['`', '`', '`'] + rest),
        fence_line(seq!['~', '~', '~'] + rest),
{
    lemma_fence_count_run(lines, a, i);
    let b = seq!['`', '`', '`'] + rest;
    let t = seq!['~', '~', '~'] + rest;
    assert(first_non_ws_from(b, 0) == 0);
    assert(first_non_ws_from(t, 0) == 0);
    assert(b.subrange(0, b.len() as int) =~= b);
    assert(t.subrange(0, t.len() as int) =~= t);
}

} // verus!
