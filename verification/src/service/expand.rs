//! Sections of a paged `expand` response.
use vstd::prelude::*;

use crate::error::{error_view, CodeFactsError, ErrorView};
use crate::service::{page_offset, page_offset_spec, PageCursor, PageOffset};
use crate::types::{copy_opt_string, opt_view};
use crate::digest::{hex_lower, sha256};
use crate::service::cursor::{encode_section_cursor, page_scope, scope_bytes, section_cursor_json, strs_view};
use crate::service::PAGE_CURSOR_VERSION;
use vstd::utf8::encode_utf8;
use crate::json::{
    items_view, json_get, json_text, json_view, lemma_items_view, object3, object_of, JsonNumber, JsonValue, JsonView,
    NumberView,
};
use crate::laws::law_object_insert_then_get;
use crate::presentation::{
    anchor_of, compact, compact_neighborhood, compact_ready, compact_spec, endpoints_present, neighborhood_ready,
    set_member, strip_member,
};
use crate::text::{char_utf8_width, chars_equal, chars_of, lemma_utf8_len_prefix_monotone, utf8_len};

verus! {

/// Largest compact `expand` response, in bytes.
pub const COMPACT_EXPAND_BYTES: usize = 16384;

/// One relation section of `expand`, or all of them.
#[derive(Debug, Clone, Copy, PartialEq, Eq, Structural)]
pub enum ExpandSection {
    All,
    Callers,
    Callees,
    Inbound,
    Outbound,
    Tests,
    Semantic,
}

pub open spec fn expand_section_name(s: ExpandSection) -> Seq<char> {
    match s {
        ExpandSection::All => "all"@,
        ExpandSection::Callers => "callers"@,
        ExpandSection::Callees => "callees"@,
        ExpandSection::Inbound => "inbound"@,
        ExpandSection::Outbound => "outbound"@,
        ExpandSection::Tests => "tests"@,
        ExpandSection::Semantic => "semantic"@,
    }
}

/// The relation sections, in response order.
pub open spec fn expand_parts() -> Seq<ExpandSection> {
    seq![
        ExpandSection::Callers,
        ExpandSection::Callees,
        ExpandSection::Inbound,
        ExpandSection::Outbound,
        ExpandSection::Tests,
        ExpandSection::Semantic,
    ]
}

/// JSON pointer of a relation section inside an `expand` result.
pub open spec fn section_pointer(s: ExpandSection) -> Seq<char> {
    match s {
        ExpandSection::Callers => "/callers"@,
        ExpandSection::Callees => "/callees"@,
        ExpandSection::Inbound => "/references/inbound"@,
        ExpandSection::Outbound => "/references/outbound"@,
        ExpandSection::Tests => "/tests"@,
        ExpandSection::Semantic => "/references/semantic/locations"@,
        ExpandSection::All => Seq::empty(),
    }
}

impl ExpandSection {
    /// The relation sections, in response order.
    pub fn parts() -> (r: Vec<ExpandSection>)
        ensures
            r@ == expand_parts(),
    {
        vec![
            ExpandSection::Callers,
            ExpandSection::Callees,
            ExpandSection::Inbound,
            ExpandSection::Outbound,
            ExpandSection::Tests,
            ExpandSection::Semantic,
        ]
    }

    /// The section's name in requests and continuations.
    pub fn as_str(self) -> (r: &'static str)
        ensures
            r@ == expand_section_name(self),
    {
        match self {
            ExpandSection::All => "all",
            ExpandSection::Callers => "callers",
            ExpandSection::Callees => "callees",
            ExpandSection::Inbound => "inbound",
            ExpandSection::Outbound => "outbound",
            ExpandSection::Tests => "tests",
            ExpandSection::Semantic => "semantic",
        }
    }

    /// The section with the given name.
    pub fn parse(value: &str) -> (r: Option<Self>)
        ensures
            match r {
                Some(s) => expand_section_name(s) == value@,
                None => forall|s: ExpandSection| expand_section_name(s) != value@,
            },
    {
        let v = chars_of(value);
        let mut all = Vec::new();
        all.push(ExpandSection::All);
        let parts = Self::parts();
        let mut k: usize = 0;
        while k < parts.len()
            invariant
                k <= parts@.len(),
                parts@ == expand_parts(),
                all@ == seq![ExpandSection::All] + parts@.take(k as int),
            decreases parts@.len() - k,
        {
            all.push(parts[k]);
            assert(all@ =~= seq![ExpandSection::All] + parts@.take(k + 1));
            k = k + 1;
        }
        assert(parts@.take(6) =~= parts@);
        let mut i: usize = 0;
        while i < all.len()
            invariant
                i <= all@.len(),
                all@ == seq![ExpandSection::All] + expand_parts(),
                v@ == value@,
                forall|j: int| 0 <= j < i ==> expand_section_name(#[trigger] all@[j]) != value@,
            decreases all@.len() - i,
        {
            let candidate = all[i];
            if chars_equal(chars_of(candidate.as_str()).as_slice(), v.as_slice()) {
                return Some(candidate);
            }
            i = i + 1;
        }
        proof {
            assert forall|s: ExpandSection| expand_section_name(s) != value@ by {
                let k: int = match s {
                    ExpandSection::All => 0,
                    ExpandSection::Callers => 1,
                    ExpandSection::Callees => 2,
                    ExpandSection::Inbound => 3,
                    ExpandSection::Outbound => 4,
                    ExpandSection::Tests => 5,
                    ExpandSection::Semantic => 6,
                };
                assert(all@[k] == s);
            }
        }
        None
    }

    /// JSON pointer of a relation section (not of `All`).
    pub fn pointer(self) -> (r: &'static str)
        requires
            self != ExpandSection::All,
        ensures
            r@ == section_pointer(self),
    {
        match self {
            ExpandSection::Callers => "/callers",
            ExpandSection::Callees => "/callees",
            ExpandSection::Inbound => "/references/inbound",
            ExpandSection::Outbound => "/references/outbound",
            ExpandSection::Tests => "/tests",
            ExpandSection::Semantic => "/references/semantic/locations",
            ExpandSection::All => "",
        }
    }
}

// ---------------------------------------------------------------------------
// Budgeted resolution results
// ---------------------------------------------------------------------------
pub open spec fn budget_exceeded_message() -> Seq<char> {
    "One fact exceeds the compact response budget; request format=full."@
}

pub open spec fn candidates_truncated_message() -> Seq<char> {
    "Candidate list truncated by response budget. Add file_path or use paged search to select an exact symbol id."@
}

/// A result as a compact `expand` response presents it: compacted, with
/// the byte budget named.
pub open spec fn presented(result: JsonView) -> JsonView {
    set_member(compact_spec(result), "max_bytes"@, JsonView::Number(NumberView::PosInt(COMPACT_EXPAND_BYTES as u64)))
}

/// Whether the presented result's JSON text fits the budget in UTF-8 bytes.
pub open spec fn within_budget(result: JsonView) -> bool {
    utf8_len(json_text(presented(result))) <= COMPACT_EXPAND_BYTES
}

/// Number of candidate matches a result lists.
pub open spec fn candidate_count(result: JsonView) -> nat {
    match json_get(result, "matches"@) {
        Some(JsonView::Array(m)) => m.len(),
        _ => 0,
    }
}

/// The result with its last candidate left out and marked truncated.
pub open spec fn drop_candidate(result: JsonView, matches: Seq<JsonView>) -> JsonView {
    set_member(
        set_member(
            set_member(result, "matches"@, JsonView::Array(matches.drop_last())),
            "truncated"@,
            JsonView::Bool(true),
        ),
        "message"@,
        JsonView::String(candidates_truncated_message()),
    )
}

/// A not-found, ambiguous or stale result within the compact budget: the
/// presented result when it fits, else with trailing candidates dropped
/// until it fits while more than one is left; a result that cannot fit is
/// refused.
pub open spec fn bounded_resolution_spec(result: JsonView) -> Result<JsonView, ErrorView>
    decreases candidate_count(result),
{
    if within_budget(result) {
        Ok(presented(result))
    } else {
        match json_get(result, "matches"@) {
            Some(JsonView::Array(m)) => if m.len() > 1 {
                proof {
                    lemma_drop_candidate(result, m, "matches"@);
                }
                bounded_resolution_spec(drop_candidate(result, m))
            } else {
                Err(ErrorView::Mcp(budget_exceeded_message()))
            },
            _ => Err(ErrorView::Mcp(budget_exceeded_message())),
        }
    }
}

pub proof fn lemma_set_member_get(v: JsonView, key: Seq<char>, x: JsonView, other: Seq<char>)
    requires
        v is Object,
    ensures
        set_member(v, key, x) is Object,
        json_get(set_member(v, key, x), key) == Some(x),
        other != key ==> json_get(set_member(v, key, x), other) == json_get(v, other),
{
    law_object_insert_then_get(v->Object_0, key, x, other);
}

/// The keys that dropping a candidate touches are distinct from one another
/// and from the keys that compaction reads.
proof fn lemma_keys_distinct()
    ensures
        "matches"@ != "truncated"@,
        "matches"@ != "message"@,
        "truncated"@ != "message"@,
        "definition"@ != "matches"@ && "definition"@ != "truncated"@ && "definition"@ != "message"@,
        "symbol"@ != "matches"@ && "symbol"@ != "truncated"@ && "symbol"@ != "message"@,
        "callers"@ != "matches"@ && "callers"@ != "truncated"@ && "callers"@ != "message"@,
        "callees"@ != "matches"@ && "callees"@ != "truncated"@ && "callees"@ != "message"@,
        "references"@ != "matches"@ && "references"@ != "truncated"@ && "references"@ != "message"@,
        "context_entries"@ != "matches"@ && "context_entries"@ != "truncated"@ && "context_entries"@ != "message"@,
        "context_entries"@ != "callers"@ && "context_entries"@ != "callees"@ && "context_entries"@ != "references"@,
{
    reveal_strlit("matches");
    reveal_strlit("truncated");
    reveal_strlit("message");
    reveal_strlit("definition");
    reveal_strlit("symbol");
    reveal_strlit("callers");
    reveal_strlit("callees");
    reveal_strlit("references");
    reveal_strlit("context_entries");
    assert("matches"@.len() == 7 && "message"@.len() == 7 && "truncated"@.len() == 9);
    assert("definition"@.len() == 10 && "symbol"@.len() == 6 && "references"@.len() == 10);
    assert("context_entries"@.len() == 15 && "callers"@.len() == 7 && "callees"@.len() == 7);
    assert("matches"@[1] != "message"@[1]);
    assert("callers"@[0] != "matches"@[0]);
    assert("callers"@[0] != "message"@[0]);
    assert("callees"@[0] != "matches"@[0]);
    assert("callees"@[0] != "message"@[0]);
}

/// Setting one member of an object, to anything, keeps every other member.
pub proof fn lemma_set_member_keeps(v: JsonView, key: Seq<char>, other: Seq<char>)
    requires
        v is Object,
        other != key,
    ensures
        forall|x: JsonView|
            #[trigger] set_member(v, key, x) is Object && json_get(set_member(v, key, x), other) == json_get(v, other),
{
    assert forall|x: JsonView|
        #[trigger] set_member(v, key, x) is Object && json_get(set_member(v, key, x), other) == json_get(v, other) by {
        lemma_set_member_get(v, key, x, other);
    }
}

/// Dropping a candidate changes only `matches`, `truncated` and `message`.
pub proof fn lemma_drop_candidate(result: JsonView, m: Seq<JsonView>, other: Seq<char>)
    requires
        json_get(result, "matches"@) == Some(JsonView::Array(m)),
    ensures
        drop_candidate(result, m) is Object,
        json_get(drop_candidate(result, m), "matches"@) == Some(JsonView::Array(m.drop_last())),
        candidate_count(drop_candidate(result, m)) == m.len() - 1 || m.len() == 0,
        other != "matches"@ && other != "truncated"@ && other != "message"@ ==> json_get(
            drop_candidate(result, m),
            other,
        ) == json_get(result, other),
{
    lemma_keys_distinct();
    let a = set_member(result, "matches"@, JsonView::Array(m.drop_last()));
    let b = set_member(a, "truncated"@, JsonView::Bool(true));
    lemma_set_member_get(result, "matches"@, JsonView::Array(m.drop_last()), other);
    lemma_set_member_get(a, "truncated"@, JsonView::Bool(true), other);
    lemma_set_member_get(b, "message"@, JsonView::String(candidates_truncated_message()), other);
    lemma_set_member_get(a, "truncated"@, JsonView::Bool(true), "matches"@);
    lemma_set_member_get(b, "message"@, JsonView::String(candidates_truncated_message()), "matches"@);
}

/// Compaction reads `context_entries` of an entry as it was.
proof fn lemma_neighborhood_keeps_entries(x: JsonView)
    requires
        x is Object,
    ensures
        json_get(compact_neighborhood(x), "context_entries"@) == json_get(x, "context_entries"@),
{
    lemma_keys_distinct();
    match anchor_of(x) {
        None => {},
        Some(anchor) => {
            lemma_set_member_keeps(x, "callers"@, "context_entries"@);
            let callers = strip_member(x, "callers"@, "to"@, anchor);
            assert(callers is Object && json_get(callers, "context_entries"@) == json_get(x, "context_entries"@));
            lemma_set_member_keeps(callers, "callees"@, "context_entries"@);
            let callees = strip_member(callers, "callees"@, "from"@, anchor);
            assert(callees is Object && json_get(callees, "context_entries"@) == json_get(x, "context_entries"@));
            lemma_set_member_keeps(callees, "references"@, "context_entries"@);
        },
    }
}

/// Dropping a candidate keeps a result ready for compaction.
proof fn lemma_drop_keeps_ready(result: JsonView, m: Seq<JsonView>)
    requires
        compact_ready(result),
        json_get(result, "matches"@) == Some(JsonView::Array(m)),
    ensures
        compact_ready(drop_candidate(result, m)),
{
    lemma_keys_distinct();
    reveal_strlit("definition");
    reveal_strlit("symbol");
    reveal_strlit("callers");
    reveal_strlit("callees");
    reveal_strlit("references");
    reveal_strlit("context_entries");
    let d = drop_candidate(result, m);
    lemma_drop_candidate(result, m, "definition"@);
    lemma_drop_candidate(result, m, "symbol"@);
    lemma_drop_candidate(result, m, "callers"@);
    lemma_drop_candidate(result, m, "callees"@);
    lemma_drop_candidate(result, m, "references"@);
    lemma_drop_candidate(result, m, "context_entries"@);
    assert(anchor_of(d) == anchor_of(result));
    assert(neighborhood_ready(d));
    lemma_neighborhood_keeps_entries(result);
    lemma_neighborhood_keeps_entries(d);
}

/// Whether the UTF-8 encoding of `s` takes at most `budget` bytes.
fn fits_in_bytes(s: &[char], budget: usize) -> (r: bool)
    ensures
        r == (utf8_len(s@) <= budget),
{
    let mut used: usize = 0;
    let mut k: usize = 0;
    while k < s.len()
        invariant
            k <= s@.len(),
            used == utf8_len(s@.take(k as int)),
            used <= budget,
        decreases s@.len() - k,
    {
        assert(s@.take(k + 1).drop_last() =~= s@.take(k as int));
        let w = char_utf8_width(s[k]);
        if w > budget - used {
            proof {
                lemma_utf8_len_prefix_monotone(s@, k + 1, s@.len() as int);
                assert(s@.take(s@.len() as int) =~= s@);
            }
            return false;
        }
        used = used + w;
        k = k + 1;
    }
    assert(s@.take(s@.len() as int) =~= s@);
    true
}

/// See [`bounded_resolution_spec`].
#[verifier::loop_isolation(false)]
pub fn bounded_resolution_result(result: JsonValue) -> (r: Result<JsonValue, CodeFactsError>)
    requires
        compact_ready(result@),
    ensures
        match r {
            Ok(v) => bounded_resolution_spec(result@) == Ok::<JsonView, ErrorView>(v@),
            Err(e) => bounded_resolution_spec(result@) == Err::<JsonView, ErrorView>(error_view(e)),
        },
{
    let ghost original = result@;
    let mut result = result;
    loop
        invariant
            compact_ready(result@),
            bounded_resolution_spec(result@) == bounded_resolution_spec(original),
        decreases candidate_count(result@),
    {
        let ghost current = result@;
        let mut shown = compact(result.copy());
        assert(shown@ == compact_spec(current));
        shown.insert("max_bytes".to_owned(), JsonValue::Number(JsonNumber::PosInt(16384)));
        assert(shown@ == presented(current));
        let text = chars_of(shown.to_json_string().as_str());
        assert(text@ == json_text(presented(current)));
        if fits_in_bytes(text.as_slice(), COMPACT_EXPAND_BYTES) {
            assert(within_budget(current));
            return Ok(shown);
        }
        assert(!within_budget(current));
        let remaining = match result.get("matches") {
            Some(JsonValue::Array(m)) => {
                proof {
                    lemma_items_view(m@, m@.len() as int);
                }
                let ghost mv = items_view(m@, m@.len() as int);
                assert(json_get(current, "matches"@) == Some(JsonView::Array(mv)));
                if m.len() <= 1 {
                    return Err(
                        CodeFactsError::Mcp(
                            "One fact exceeds the compact response budget; request format=full.".to_owned(),
                        ),
                    );
                }
                let last = m.len() - 1;
                let mut kept: Vec<JsonValue> = Vec::new();
                let mut i: usize = 0;
                while i < last
                    invariant
                        i <= last,
                        last == m@.len() - 1,
                        mv == items_view(m@, m@.len() as int),
                        mv.len() == m@.len(),
                        forall|j: int| 0 <= j < m@.len() ==> #[trigger] mv[j] == json_view(m@[j]),
                        items_view(kept@, kept@.len() as int) == mv.take(i as int),
                        kept@.len() == i,
                    decreases last - i,
                {
                    let ghost before = kept@;
                    kept.push(m[i].copy());
                    proof {
                        lemma_items_view(kept@, kept@.len() as int);
                        lemma_items_view(before, before.len() as int);
                        assert(items_view(kept@, kept@.len() as int) =~= mv.take(i + 1));
                    }
                    i = i + 1;
                }
                proof {
                    assert(mv.take(i as int) =~= mv.drop_last());
                    lemma_drop_candidate(current, mv, "matches"@);
                    lemma_drop_keeps_ready(current, mv);
                }
                JsonValue::Array(kept)
            },
            _ => {
                return Err(
                    CodeFactsError::Mcp("One fact exceeds the compact response budget; request format=full.".to_owned()),
                );
            },
        };
        let ghost mv = json_get(current, "matches"@)->Some_0->Array_0;
        result.insert("matches".to_owned(), remaining);
        result.insert("truncated".to_owned(), JsonValue::Bool(true));
        result.insert(
            "message".to_owned(),
            JsonValue::String(
                "Candidate list truncated by response budget. Add file_path or use paged search to select an exact symbol id.".to_owned(),
            ),
        );
        proof {
            reveal_strlit("Candidate list truncated by response budget. Add file_path or use paged search to select an exact symbol id.");
            assert(result@ == drop_candidate(current, mv));
        }
    }
}


// ---------------------------------------------------------------------------
// Trimming relation sections to the budget
// ---------------------------------------------------------------------------
/// One relation section of an `expand` page: the offset it starts at and
/// whether more items follow it.
#[derive(Debug, Clone, Copy, PartialEq, Eq, Structural)]
pub struct SectionPage {
    pub section: ExpandSection,
    pub offset: usize,
    pub more: bool,
}

/// The keys that lead from an `expand` result to a relation section's array
/// (the steps of its JSON pointer).
pub open spec fn section_keys(s: ExpandSection) -> Seq<Seq<char>> {
    match s {
        ExpandSection::Callers => seq!["callers"@],
        ExpandSection::Callees => seq!["callees"@],
        ExpandSection::Inbound => seq!["references"@, "inbound"@],
        ExpandSection::Outbound => seq!["references"@, "outbound"@],
        ExpandSection::Tests => seq!["tests"@],
        ExpandSection::Semantic => seq!["references"@, "semantic"@, "locations"@],
        ExpandSection::All => Seq::empty(),
    }
}

/// The keys that lead to the semantic references' status object.
pub open spec fn semantic_keys() -> Seq<Seq<char>> {
    seq!["references"@, "semantic"@]
}

/// The value reached from `v` by following object members named `keys`.
pub open spec fn json_at(v: JsonView, keys: Seq<Seq<char>>) -> Option<JsonView>
    decreases keys.len(),
{
    if keys.len() == 0 {
        Some(v)
    } else {
        match json_get(v, keys[0]) {
            Some(c) => json_at(c, keys.drop_first()),
            None => None,
        }
    }
}

/// `v` with the value reached by `keys` replaced by `x` (unchanged when the
/// keys lead nowhere).
pub open spec fn json_set_at(v: JsonView, keys: Seq<Seq<char>>, x: JsonView) -> JsonView
    decreases keys.len(),
{
    if keys.len() == 0 {
        x
    } else {
        match json_get(v, keys[0]) {
            Some(c) => set_member(v, keys[0], json_set_at(c, keys.drop_first(), x)),
            None => v,
        }
    }
}

/// The items of a relation section, when its place holds an array.
pub open spec fn section_items(result: JsonView, s: ExpandSection) -> Option<Seq<JsonView>> {
    match json_at(result, section_keys(s)) {
        Some(JsonView::Array(a)) => Some(a),
        _ => None,
    }
}

/// UTF-8 bytes of a relation section's JSON text.
pub open spec fn section_bytes(result: JsonView, s: ExpandSection) -> nat {
    utf8_len(json_text(JsonView::Array(section_items(result, s)->Some_0)))
}

/// Whether a section has an item left to drop.
pub open spec fn trimmable(result: JsonView, s: ExpandSection) -> bool {
    section_items(result, s) matches Some(a) && a.len() > 0
}

/// The page whose section is trimmed next: among the pages with an item
/// left, the one with the longest JSON text, the last of equally long ones;
/// -1 when no page has an item left.
pub open spec fn largest_section(result: JsonView, pages: Seq<SectionPage>) -> int
    decreases pages.len(),
{
    if pages.len() == 0 {
        -1
    } else {
        let b = largest_section(result, pages.drop_last());
        let k = pages.len() - 1;
        if trimmable(result, pages[k].section) && (b < 0 || section_bytes(result, pages[k].section)
            >= section_bytes(result, pages[b].section)) {
            k
        } else {
            b
        }
    }
}

/// The result with its semantic references marked truncated and `count`
/// more locations counted as omitted.
pub open spec fn omission_noted(result: JsonView, count: nat) -> JsonView {
    let semantic = json_at(result, semantic_keys())->Some_0;
    let omitted = json_get(semantic, "omitted_locations"@)->Some_0->Number_0->PosInt_0;
    json_set_at(
        result,
        semantic_keys(),
        set_member(
            set_member(semantic, "truncated"@, JsonView::Bool(true)),
            "omitted_locations"@,
            JsonView::Number(NumberView::PosInt((omitted + count) as u64)),
        ),
    )
}

/// Whether the semantic status object can count `count` more omitted
/// locations.
pub open spec fn omission_ready(result: JsonView, count: nat) -> bool {
    &&& json_at(result, semantic_keys()) matches Some(semantic)
    &&& semantic is Object
    &&& json_get(semantic, "omitted_locations"@) matches Some(JsonView::Number(NumberView::PosInt(n)))
    &&& n + count <= u64::MAX
}

/// Whether every page names a relation section that holds an array, and the
/// semantic status can count one more omission when a page is semantic.
pub open spec fn pages_ready(result: JsonView, pages: Seq<SectionPage>) -> bool {
    forall|i: int|
        0 <= i < pages.len() ==> {
            &&& #[trigger] pages[i].section != ExpandSection::All
            &&& section_items(result, pages[i].section) is Some
            &&& pages[i].section == ExpandSection::Semantic ==> omission_ready(result, 1)
        }
}

/// One trimming step: the largest section with an item left drops its last
/// item and says more follow; a dropped semantic location is counted as
/// omitted. `None` when no section has an item left.
pub open spec fn trim_step(result: JsonView, pages: Seq<SectionPage>) -> Option<(JsonView, Seq<SectionPage>)> {
    let b = largest_section(result, pages);
    if b < 0 {
        None
    } else {
        let p = pages[b];
        let items = section_items(result, p.section)->Some_0;
        let popped = json_set_at(result, section_keys(p.section), JsonView::Array(items.drop_last()));
        let noted = if p.section == ExpandSection::Semantic {
            omission_noted(popped, 1)
        } else {
            popped
        };
        Some((noted, pages.update(b, SectionPage { more: true, ..p })))
    }
}

/// The views of a list of keys.
pub open spec fn keys_view(keys: Seq<&str>) -> Seq<Seq<char>> {
    keys.map_values(|k: &str| k@)
}

fn section_key_list(s: ExpandSection) -> (r: Vec<&'static str>)
    requires
        s != ExpandSection::All,
    ensures
        keys_view(r@) == section_keys(s),
{
    let r = match s {
        ExpandSection::Callers => vec!["callers"],
        ExpandSection::Callees => vec!["callees"],
        ExpandSection::Inbound => vec!["references", "inbound"],
        ExpandSection::Outbound => vec!["references", "outbound"],
        ExpandSection::Tests => vec!["tests"],
        ExpandSection::Semantic => vec!["references", "semantic", "locations"],
        ExpandSection::All => vec![],
    };
    assert(keys_view(r@) =~= section_keys(s));
    r
}

proof fn lemma_json_at_step(v: JsonView, keys: Seq<Seq<char>>, i: int)
    requires
        0 <= i < keys.len(),
    ensures
        json_at(v, keys.skip(i)) == match json_get(v, keys[i]) {
            Some(c) => json_at(c, keys.skip(i + 1)),
            None => None,
        },
{
    assert(keys.skip(i).drop_first() =~= keys.skip(i + 1));
    assert(keys.skip(i)[0] == keys[i]);
}

/// The value reached from `v` by following `keys`.
fn get_at<'a>(v: &'a JsonValue, keys: &[&str]) -> (r: Option<&'a JsonValue>)
    ensures
        match r {
            Some(x) => json_at(v@, keys_view(keys@)) == Some(x@),
            None => json_at(v@, keys_view(keys@)) is None,
        },
{
    let ghost kv = keys_view(keys@);
    let mut cur = v;
    let mut i: usize = 0;
    assert(kv.skip(0) =~= kv);
    while i < keys.len()
        invariant
            i <= keys@.len(),
            kv == keys_view(keys@),
            json_at(v@, kv) == json_at(cur@, kv.skip(i as int)),
        decreases keys@.len() - i,
    {
        proof {
            lemma_json_at_step(cur@, kv, i as int);
        }
        assert(kv[i as int] == keys@[i as int]@);
        match cur.get(keys[i]) {
            Some(c) => {
                cur = c;
            },
            None => {
                return None;
            },
        }
        i = i + 1;
    }
    assert(kv.skip(keys@.len() as int) =~= Seq::<Seq<char>>::empty());
    Some(cur)
}

/// Replaces the value reached from `v` by `keys[i..]` with `x`.
fn set_at(v: &mut JsonValue, keys: &[&str], i: usize, x: JsonValue)
    requires
        i <= keys@.len(),
        json_at(old(v)@, keys_view(keys@).skip(i as int)) is Some,
    ensures
        final(v)@ == json_set_at(old(v)@, keys_view(keys@).skip(i as int), x@),
    decreases keys@.len() - i,
{
    let ghost kv = keys_view(keys@);
    if i == keys.len() {
        assert(kv.skip(i as int) =~= Seq::<Seq<char>>::empty());
        *v = x;
        return;
    }
    proof {
        lemma_json_at_step(v@, kv, i as int);
        assert(kv.skip(i as int).drop_first() =~= kv.skip(i + 1));
        assert(kv.skip(i as int)[0] == kv[i as int]);
    }
    assert(kv[i as int] == keys@[i as int]@);
    let mut child = match v.get(keys[i]) {
        Some(c) => c.copy(),
        None => {
            return;
        },
    };
    set_at(&mut child, keys, i + 1, x);
    v.insert(keys[i].to_owned(), child);
}

proof fn lemma_semantic_keys_distinct()
    ensures
        "locations"@ != "omitted_locations"@,
        "locations"@ != "truncated"@,
        "truncated"@ != "omitted_locations"@,
{
    reveal_strlit("locations");
    reveal_strlit("omitted_locations");
    reveal_strlit("truncated");
    assert("locations"@.len() != "omitted_locations"@.len());
    assert("locations"@[0] != "truncated"@[0]);
    assert("truncated"@.len() != "omitted_locations"@.len());
}

/// Marks the semantic references truncated and counts `count` more omitted
/// locations (see [`omission_noted`]).
fn note_semantic_omission(result: &mut JsonValue, count: u64)
    requires
        omission_ready(old(result)@, count as nat),
    ensures
        final(result)@ == omission_noted(old(result)@, count as nat),
{
    let keys = vec!["references", "semantic"];
    assert(keys_view(keys@) =~= semantic_keys());
    let mut semantic = match get_at(result, keys.as_slice()) {
        Some(s) => s.copy(),
        None => {
            return;
        },
    };
    let omitted = match semantic.get("omitted_locations") {
        Some(n) => match n.as_u64() {
            Some(u) => u,
            None => {
                return;
            },
        },
        None => {
            return;
        },
    };
    semantic.insert("truncated".to_owned(), JsonValue::Bool(true));
    semantic.insert("omitted_locations".to_owned(), JsonValue::Number(JsonNumber::PosInt(omitted + count)));
    assert(keys_view(keys@).skip(0) =~= semantic_keys());
    set_at(result, keys.as_slice(), 0, semantic);
}

/// UTF-8 bytes of a character buffer.
fn utf8_bytes(s: &[char]) -> (r: u128)
    ensures
        r == utf8_len(s@),
{
    let mut n: u128 = 0;
    let mut k: usize = 0;
    while k < s.len()
        invariant
            k <= s@.len(),
            n == utf8_len(s@.take(k as int)),
            n <= 4 * k,
        decreases s@.len() - k,
    {
        assert(s@.take(k + 1).drop_last() =~= s@.take(k as int));
        n = n + char_utf8_width(s[k]) as u128;
        k = k + 1;
    }
    assert(s@.take(s@.len() as int) =~= s@);
    n
}


/// Dropping semantic locations leaves the semantic status able to count
/// the omission.
proof fn lemma_pop_keeps_omission_ready(result: JsonView, x: JsonView)
    requires
        omission_ready(result, 1),
        json_at(result, section_keys(ExpandSection::Semantic)) is Some,
    ensures
        omission_ready(json_set_at(result, section_keys(ExpandSection::Semantic), x), 1),
        json_at(json_set_at(result, section_keys(ExpandSection::Semantic), x), semantic_keys())->Some_0 == set_member(
            json_at(result, semantic_keys())->Some_0,
            "locations"@,
            x,
        ),
{
    lemma_semantic_keys_distinct();
    reveal_strlit("references");
    reveal_strlit("semantic");
    reveal_with_fuel(json_at, 4);
    reveal_with_fuel(json_set_at, 4);
    let keys = section_keys(ExpandSection::Semantic);
    let refs = json_get(result, "references"@)->Some_0;
    let sem = json_get(refs, "semantic"@)->Some_0;
    assert(keys[0] == "references"@ && keys[1] == "semantic"@ && keys[2] == "locations"@);
    assert(keys.drop_first() =~= seq!["semantic"@, "locations"@]);
    assert(keys.drop_first().drop_first() =~= seq!["locations"@]);
    assert(seq!["locations"@].drop_first() =~= Seq::<Seq<char>>::empty());
    assert(semantic_keys().drop_first() =~= seq!["semantic"@]);
    assert(seq!["semantic"@].drop_first() =~= Seq::<Seq<char>>::empty());
    assert(json_at(result, semantic_keys()) == Some(sem));
    assert(json_get(result, "references"@) is Some ==> result is Object);
    assert(json_get(refs, "semantic"@) is Some ==> refs is Object);
    let sem2 = set_member(sem, "locations"@, x);
    let refs2 = set_member(refs, "semantic"@, sem2);
    let out = set_member(result, "references"@, refs2);
    assert(json_set_at(sem, seq!["locations"@], x) == sem2);
    assert(json_set_at(refs, keys.drop_first(), x) == refs2);
    assert(json_set_at(result, keys, x) == out);
    lemma_set_member_get(result, "references"@, refs2, "references"@);
    lemma_set_member_get(refs, "semantic"@, sem2, "semantic"@);
    lemma_set_member_get(sem, "locations"@, x, "omitted_locations"@);
    assert(json_at(out, semantic_keys()) == Some(sem2));
}

/// The page that [`largest_section`] picks has an item left.
proof fn lemma_largest_section_trimmable(result: JsonView, pages: Seq<SectionPage>)
    ensures
        -1 <= largest_section(result, pages) < pages.len(),
        largest_section(result, pages) >= 0 ==> trimmable(
            result,
            pages[largest_section(result, pages)].section,
        ),
    decreases pages.len(),
{
    if pages.len() > 0 {
        lemma_largest_section_trimmable(result, pages.drop_last());
    }
}

/// One trimming step of a compact `expand` answer over budget (see
/// [`trim_step`]): returns whether a section had an item to drop.
pub fn trim_largest_section(result: &mut JsonValue, pages: &mut Vec<SectionPage>) -> (r: bool)
    requires
        pages_ready(old(result)@, old(pages)@),
    ensures
        match trim_step(old(result)@, old(pages)@) {
            Some(next) => r && final(result)@ == next.0 && final(pages)@ == next.1,
            None => !r && final(result)@ == old(result)@ && final(pages)@ == old(pages)@,
        },
{
    let ghost rv = result@;
    let ghost pv = pages@;
    let mut best: Option<usize> = None;
    let mut best_size: u128 = 0;
    let mut k: usize = 0;
    while k < pages.len()
        invariant
            k <= pages@.len(),
            result@ == rv,
            pages@ == pv,
            pages_ready(rv, pv),
            match best {
                Some(b) => largest_section(rv, pv.take(k as int)) == b && b < k && best_size == section_bytes(
                    rv,
                    pv[b as int].section,
                ),
                None => largest_section(rv, pv.take(k as int)) == -1,
            },
        decreases pages@.len() - k,
    {
        assert(pv.take(k + 1).drop_last() =~= pv.take(k as int));
        assert(pv.take(k + 1)[k as int] == pv[k as int]);
        let ghost prev = largest_section(rv, pv.take(k as int));
        assert(prev >= 0 ==> pv.take(k + 1)[prev] == pv[prev]);
        let s = pages[k].section;
        assert(s != ExpandSection::All && section_items(rv, s) is Some);
        let keys = section_key_list(s);
        let found = get_at(result, keys.as_slice());
        match found {
            Some(sec) => {
                let n = match sec {
                    JsonValue::Array(a) => {
                        proof {
                            lemma_items_view(a@, a@.len() as int);
                        }
                        a.len()
                    },
                    _ => 0,
                };
                if n > 0 {
                    let size = utf8_bytes(chars_of(sec.to_json_string().as_str()).as_slice());
                    assert(size == section_bytes(rv, s));
                    let take = match best {
                        Some(_) => size >= best_size,
                        None => true,
                    };
                    if take {
                        best = Some(k);
                        best_size = size;
                    }
                } else {
                    assert(!trimmable(rv, s));
                }
            },
            None => {
                assert(!trimmable(rv, s));
            },
        }
        k = k + 1;
    }
    assert(pv.take(pv.len() as int) =~= pv);
    proof {
        lemma_largest_section_trimmable(rv, pv);
    }
    match best {
        None => false,
        Some(b) => {
            let page = pages[b];
            let keys = section_key_list(page.section);
            let ghost kv = keys_view(keys@);
            let ghost items = section_items(rv, page.section)->Some_0;
            let mut kept = match get_at(result, keys.as_slice()) {
                Some(sec) => match sec.copy() {
                    JsonValue::Array(a) => a,
                    _ => {
                        return false;
                    },
                },
                None => {
                    return false;
                },
            };
            proof {
                lemma_items_view(kept@, kept@.len() as int);
            }
            let ghost before = kept@;
            kept.pop();
            proof {
                lemma_items_view(kept@, kept@.len() as int);
                assert(items_view(kept@, kept@.len() as int) =~= items.drop_last());
                assert(kv.skip(0) =~= kv);
            }
            set_at(result, keys.as_slice(), 0, JsonValue::Array(kept));
            let ghost popped = result@;
            assert(popped == json_set_at(rv, section_keys(page.section), JsonView::Array(items.drop_last())));
            pages.set(b, SectionPage { section: page.section, offset: page.offset, more: true });
            if page.section == ExpandSection::Semantic {
                proof {
                    lemma_pop_keeps_omission_ready(rv, JsonView::Array(items.drop_last()));
                }
                note_semantic_omission(result, 1);
            }
            true
        },
    }
}


/// Whether a single-section answer that fits the budget still shows an
/// empty page whose items were all left out: one fact alone exceeds the
/// budget.
pub open spec fn one_fact_exceeds(result: JsonView, section: ExpandSection, pages: Seq<SectionPage>) -> bool {
    &&& section != ExpandSection::All
    &&& exists|i: int| 0 <= i < pages.len() && #[trigger] emptied(result, pages[i])
}

/// Whether a page left items out while its section shows none.
pub open spec fn emptied(result: JsonView, page: SectionPage) -> bool {
    &&& page.more
    &&& section_items(result, page.section) matches Some(a)
    &&& a.len() == 0
}

/// Whether one fact alone exceeds the budget (see [`one_fact_exceeds`]).
pub fn fact_exceeds_budget(result: &JsonValue, section: ExpandSection, pages: &[SectionPage]) -> (r: bool)
    requires
        pages_ready(result@, pages@),
    ensures
        r == one_fact_exceeds(result@, section, pages@),
{
    if section == ExpandSection::All {
        return false;
    }
    let mut k: usize = 0;
    while k < pages.len()
        invariant
            k <= pages@.len(),
            pages_ready(result@, pages@),
            section != ExpandSection::All,
            forall|i: int| 0 <= i < k ==> !#[trigger] emptied(result@, pages@[i]),
        decreases pages@.len() - k,
    {
        let page = pages[k];
        if page.more {
            let keys = section_key_list(page.section);
            match get_at(result, keys.as_slice()) {
                Some(JsonValue::Array(a)) => {
                    proof {
                        lemma_items_view(a@, a@.len() as int);
                    }
                    if a.len() == 0 {
                        assert(emptied(result@, pages@[k as int]));
                        return true;
                    }
                },
                _ => {},
            }
        }
        k = k + 1;
    }
    false
}

/// What stands in for a definition's source text left out by the budget.
pub open spec fn omitted_source() -> JsonView {
    object_of(
        seq![
            ("reason"@, JsonView::String("response_budget"@)),
            ("status"@, JsonView::String("omitted"@)),
            ("truncated"@, JsonView::Bool(true)),
        ],
    )
}

/// Whether the answer still carries a definition's source text.
pub open spec fn has_source_text(result: JsonView) -> bool {
    json_get(result, "source"@) matches Some(src) && json_get(src, "text"@) is Some
}

/// When no section has an item left, a long definition's source text is the
/// last thing left out; it stays available by its exact source span.
/// Returns whether the text was there to leave out.
pub fn omit_source_text(result: &mut JsonValue) -> (r: bool)
    requires
        old(result)@ is Object,
    ensures
        r == has_source_text(old(result)@),
        final(result)@ == if r {
            set_member(old(result)@, "source"@, omitted_source())
        } else {
            old(result)@
        },
{
    let present = match result.get("source") {
        Some(src) => src.get("text").is_some(),
        None => false,
    };
    if present {
        result.insert(
            "source".to_owned(),
            object3(
                "reason",
                JsonValue::string("response_budget"),
                "status",
                JsonValue::string("omitted"),
                "truncated",
                JsonValue::Bool(true),
            ),
        );
    }
    present
}


/// Following `a` then `b` is following `a + b`.
pub proof fn lemma_json_at_concat(v: JsonView, a: Seq<Seq<char>>, b: Seq<Seq<char>>)
    ensures
        json_at(v, a + b) == match json_at(v, a) {
            Some(o) => json_at(o, b),
            None => None,
        },
    decreases a.len(),
{
    if a.len() > 0 {
        assert((a + b)[0] == a[0]);
        assert((a + b).drop_first() =~= a.drop_first() + b);
        match json_get(v, a[0]) {
            Some(c) => lemma_json_at_concat(c, a.drop_first(), b),
            None => {},
        }
    } else {
        assert(a + b =~= b);
    }
}

/// A value set by a path reads back by that path.
pub proof fn lemma_json_set_at_get(v: JsonView, keys: Seq<Seq<char>>, x: JsonView)
    requires
        json_at(v, keys) is Some,
    ensures
        json_at(json_set_at(v, keys, x), keys) == Some(x),
    decreases keys.len(),
{
    if keys.len() > 0 {
        let c = json_get(v, keys[0])->Some_0;
        assert(v is Object);
        lemma_json_set_at_get(c, keys.drop_first(), x);
        lemma_set_member_get(v, keys[0], json_set_at(c, keys.drop_first(), x), keys[0]);
    }
}

/// The page [`largest_section`] picks has the longest text among the pages
/// with an item left, and it is -1 only when no page has one.
pub proof fn lemma_largest_section_is_largest(result: JsonView, pages: Seq<SectionPage>)
    ensures
        -1 <= largest_section(result, pages) < pages.len(),
        largest_section(result, pages) >= 0 ==> trimmable(result, pages[largest_section(result, pages)].section),
        largest_section(result, pages) < 0 ==> forall|i: int|
            0 <= i < pages.len() ==> !trimmable(result, #[trigger] pages[i].section),
        largest_section(result, pages) >= 0 ==> forall|i: int|
            0 <= i < pages.len() && trimmable(result, #[trigger] pages[i].section) ==> section_bytes(
                result,
                pages[i].section,
            ) <= section_bytes(result, pages[largest_section(result, pages)].section),
    decreases pages.len(),
{
    lemma_largest_section_trimmable(result, pages);
    if pages.len() > 0 {
        let rest = pages.drop_last();
        lemma_largest_section_is_largest(result, rest);
        lemma_largest_section_trimmable(result, rest);
        assert forall|i: int| 0 <= i < pages.len() - 1 implies #[trigger] pages[i] == rest[i] by {}
    }
}

/// The section that a trimming step shortens is left with all its items
/// but the last.
pub proof fn lemma_trim_step_section(result: JsonView, pages: Seq<SectionPage>)
    requires
        pages_ready(result, pages),
        largest_section(result, pages) >= 0,
    ensures
        ({
            let b = largest_section(result, pages);
            section_items(trim_step(result, pages)->Some_0.0, pages[b].section) == Some(
                section_items(result, pages[b].section)->Some_0.drop_last(),
            )
        }),
{
    lemma_largest_section_trimmable(result, pages);
    let b = largest_section(result, pages);
    let p = pages[b];
    let keys = section_keys(p.section);
    let items = section_items(result, p.section)->Some_0;
    let x = JsonView::Array(items.drop_last());
    let popped = json_set_at(result, keys, x);
    lemma_json_set_at_get(result, keys, x);
    if p.section == ExpandSection::Semantic {
        assert(pages_ready(result, pages) ==> (pages[b].section == ExpandSection::Semantic ==> omission_ready(result, 1)));
        lemma_pop_keeps_omission_ready(result, x);
        lemma_semantic_keys_distinct();
        let sem = json_at(popped, semantic_keys())->Some_0;
        let omitted = json_get(sem, "omitted_locations"@)->Some_0->Number_0->PosInt_0;
        let sem1 = set_member(sem, "truncated"@, JsonView::Bool(true));
        let sem2 = set_member(sem1, "omitted_locations"@, JsonView::Number(NumberView::PosInt((omitted + 1) as u64)));
        lemma_json_set_at_get(popped, semantic_keys(), sem2);
        assert(keys =~= semantic_keys() + seq!["locations"@]);
        lemma_json_at_concat(popped, semantic_keys(), seq!["locations"@]);
        lemma_json_at_concat(omission_noted(popped, 1), semantic_keys(), seq!["locations"@]);
        lemma_set_member_get(sem, "truncated"@, JsonView::Bool(true), "locations"@);
        lemma_set_member_get(
            sem1,
            "omitted_locations"@,
            JsonView::Number(NumberView::PosInt((omitted + 1) as u64)),
            "locations"@,
        );
        assert(seq!["locations"@].drop_first() =~= Seq::<Seq<char>>::empty());
        reveal_with_fuel(json_at, 2);
        assert(json_at(sem2, seq!["locations"@]) == json_get(sem2, "locations"@));
        assert(json_at(sem, seq!["locations"@]) == json_get(sem, "locations"@));
    }
}


// ---------------------------------------------------------------------------
// Continuation of section pages
// ---------------------------------------------------------------------------
/// The message that refuses a cursor for all sections at once.
pub open spec fn section_cursor_message() -> Seq<char> {
    "Use the section named in next with its cursor."@
}

/// The semantic snapshot a page of `section` is bound to: the snapshot of
/// the semantic answer for the semantic references, none otherwise.
pub open spec fn expected_snapshot(section: ExpandSection, snapshot: Option<Seq<char>>) -> Option<Seq<char>> {
    if section == ExpandSection::Semantic {
        snapshot
    } else {
        None
    }
}

/// Where an `expand` section page starts. A cursor continues one section,
/// never all of them. Otherwise it is read as a search or outline cursor
/// with no legacy offset, and it is also stale once the semantic answer it
/// was issued for has changed, even in the same index generation.
pub open spec fn expand_offset_spec(
    section: ExpandSection,
    cursor: Option<Result<PageCursor, ()>>,
    generation: i64,
    scope: Seq<char>,
    snapshot: Option<Seq<char>>,
) -> Result<PageOffset, ErrorView> {
    if section == ExpandSection::All && cursor is Some {
        Err(ErrorView::Mcp(section_cursor_message()))
    } else {
        match page_offset_spec(cursor, 0, generation, scope) {
            Ok(PageOffset::Current(o)) => match cursor {
                Some(Ok(c)) => if opt_view(c.semantic_snapshot) != expected_snapshot(section, snapshot) {
                    Ok(PageOffset::Stale)
                } else {
                    Ok(PageOffset::Current(o))
                },
                _ => Ok(PageOffset::Current(o)),
            },
            other => other,
        }
    }
}

/// Where an `expand` section page starts (see [`expand_offset_spec`]);
/// `cursor` is the decoded cursor argument, if one was given.
pub fn expand_page_offset(
    section: ExpandSection,
    cursor: Option<Result<PageCursor, ()>>,
    generation: i64,
    scope: &str,
    semantic_snapshot: Option<&str>,
) -> (r: Result<PageOffset, CodeFactsError>)
    ensures
        match r {
            Ok(p) => expand_offset_spec(
                section,
                cursor,
                generation,
                scope@,
                match semantic_snapshot {
                    Some(h) => Some(h@),
                    None => None,
                },
            ) == Ok::<PageOffset, ErrorView>(p),
            Err(e) => expand_offset_spec(
                section,
                cursor,
                generation,
                scope@,
                match semantic_snapshot {
                    Some(h) => Some(h@),
                    None => None,
                },
            ) == Err::<PageOffset, ErrorView>(error_view(e)),
        },
{
    let ghost snap = match semantic_snapshot {
        Some(h) => Some(h@),
        None => None,
    };
    if section == ExpandSection::All && cursor.is_some() {
        return Err(CodeFactsError::Mcp("Use the section named in next with its cursor.".to_owned()));
    }
    let given = match &cursor {
        Some(Ok(c)) => Some(copy_opt_string(&c.semantic_snapshot)),
        _ => None,
    };
    let ghost original = cursor;
    match page_offset(cursor, 0, generation, scope) {
        Ok(PageOffset::Current(o)) => match given {
            Some(g) => {
                let expected = if section == ExpandSection::Semantic {
                    semantic_snapshot
                } else {
                    None
                };
                assert(opt_view(g) == opt_view(original->Some_0->Ok_0.semantic_snapshot));
                let same = match (&g, expected) {
                    (Some(a), Some(b)) => crate::text::str_eq(a.as_str(), b),
                    (None, None) => true,
                    _ => false,
                };
                if same {
                    Ok(PageOffset::Current(o))
                } else {
                    Ok(PageOffset::Stale)
                }
            },
            None => Ok(PageOffset::Current(o)),
        },
        other => other,
    }
}


// ---------------------------------------------------------------------------
// Where the parts of an `expand` answer live
// ---------------------------------------------------------------------------
/// Replacing the value at one path leaves the value at a path that leaves
/// it at some key as it was.
pub proof fn lemma_set_at_other(v: JsonView, a: Seq<Seq<char>>, b: Seq<Seq<char>>, x: JsonView, i: int)
    requires
        json_at(v, a) is Some,
        0 <= i < a.len(),
        i < b.len(),
        a[i] != b[i],
        forall|j: int| 0 <= j < i ==> a[j] == b[j],
    ensures
        json_at(json_set_at(v, a, x), b) == json_at(v, b),
    decreases i,
{
    let c = json_get(v, a[0])->Some_0;
    assert(v is Object);
    if i == 0 {
        lemma_set_member_get(v, a[0], json_set_at(c, a.drop_first(), x), b[0]);
    } else {
        assert(a[0] == b[0]);
        lemma_set_member_get(v, a[0], json_set_at(c, a.drop_first(), x), a[0]);
        lemma_set_at_other(c, a.drop_first(), b.drop_first(), x, i - 1);
    }
}

/// Setting a member whose key starts neither path leaves the value at a
/// path as it was.
pub proof fn lemma_set_member_other_path(v: JsonView, k: Seq<char>, x: JsonView, b: Seq<Seq<char>>)
    requires
        v is Object,
        b.len() > 0,
        b[0] != k,
    ensures
        json_at(set_member(v, k, x), b) == json_at(v, b),
{
    lemma_set_member_get(v, k, x, b[0]);
}

proof fn lemma_key_literals()
    ensures
        "callers"@ != "callees"@,
        "callers"@ != "references"@,
        "callers"@ != "tests"@,
        "callees"@ != "references"@,
        "callees"@ != "tests"@,
        "references"@ != "tests"@,
        "inbound"@ != "outbound"@,
        "inbound"@ != "semantic"@,
        "outbound"@ != "semantic"@,
        "truncated"@ != "callers"@ && "truncated"@ != "callees"@ && "truncated"@ != "references"@ && "truncated"@ != "tests"@,
        "next"@ != "callers"@ && "next"@ != "callees"@ && "next"@ != "references"@ && "next"@ != "tests"@,
        "source"@ != "callers"@ && "source"@ != "callees"@ && "source"@ != "references"@ && "source"@ != "tests"@,
        "truncated"@ != "definition"@ && "truncated"@ != "symbol"@ && "truncated"@ != "context_entries"@,
        "next"@ != "definition"@ && "next"@ != "symbol"@ && "next"@ != "context_entries"@,
        "source"@ != "definition"@ && "source"@ != "symbol"@ && "source"@ != "context_entries"@,
        "callers"@ != "definition"@ && "callers"@ != "symbol"@ && "callers"@ != "context_entries"@,
        "callees"@ != "definition"@ && "callees"@ != "symbol"@ && "callees"@ != "context_entries"@,
        "tests"@ != "definition"@ && "tests"@ != "symbol"@ && "tests"@ != "context_entries"@,
        "references"@ != "definition"@ && "references"@ != "symbol"@ && "references"@ != "context_entries"@,
        "truncated"@ != "source"@ && "next"@ != "source"@ && "next"@ != "truncated"@,
{
    reveal_strlit("callers");
    reveal_strlit("callees");
    reveal_strlit("references");
    reveal_strlit("tests");
    reveal_strlit("inbound");
    reveal_strlit("outbound");
    reveal_strlit("semantic");
    reveal_strlit("truncated");
    reveal_strlit("next");
    reveal_strlit("source");
    reveal_strlit("definition");
    reveal_strlit("symbol");
    reveal_strlit("context_entries");
    assert("callers"@[5] != "callees"@[5]);
    assert("callers"@[0] != "references"@[0]);
    assert("callers"@[0] != "tests"@[0]);
    assert("callees"@[0] != "references"@[0]);
    assert("callees"@[0] != "tests"@[0]);
    assert("references"@[0] != "tests"@[0]);
    assert("inbound"@[0] != "outbound"@[0]);
    assert("inbound"@[0] != "semantic"@[0]);
    assert("outbound"@[0] != "semantic"@[0]);
    assert("truncated"@[0] != "callers"@[0] && "truncated"@[0] != "references"@[0]);
    assert("truncated"@[1] != "tests"@[1]);
    assert("next"@[0] != "callers"@[0] && "next"@[0] != "references"@[0] && "next"@[0] != "tests"@[0]);
    assert("source"@[0] != "callers"@[0] && "source"@[0] != "references"@[0] && "source"@[0] != "tests"@[0]);
    assert("truncated"@[0] != "definition"@[0] && "truncated"@[0] != "symbol"@[0]);
    assert("truncated"@[0] != "context_entries"@[0]);
    assert("next"@[0] != "definition"@[0] && "next"@[0] != "symbol"@[0] && "next"@[0] != "context_entries"@[0]);
    assert("source"@[0] != "definition"@[0] && "source"@[1] != "symbol"@[1]);
    assert("source"@[0] != "context_entries"@[0]);
    assert("callers"@[0] != "definition"@[0] && "callers"@[0] != "symbol"@[0]);
    assert("callers"@[1] != "context_entries"@[1]);
    assert("callees"@[0] != "definition"@[0] && "callees"@[0] != "symbol"@[0]);
    assert("callees"@[1] != "context_entries"@[1]);
    assert("tests"@[0] != "definition"@[0] && "tests"@[0] != "symbol"@[0] && "tests"@[0] != "context_entries"@[0]);
    assert("references"@[0] != "definition"@[0] && "references"@[0] != "symbol"@[0]);
    assert("references"@[0] != "context_entries"@[0]);
    assert("truncated"@[0] != "source"@[0] && "next"@[0] != "source"@[0] && "next"@[0] != "truncated"@[0]);
}


/// The first key at which the paths of two different sections part.
pub open spec fn parting(a: ExpandSection, b: ExpandSection) -> int {
    if section_keys(a)[0] != section_keys(b)[0] {
        0
    } else {
        1
    }
}

proof fn lemma_parting(a: ExpandSection, b: ExpandSection)
    requires
        a != b,
        a != ExpandSection::All,
        b != ExpandSection::All,
    ensures
        0 <= parting(a, b) < section_keys(a).len(),
        parting(a, b) < section_keys(b).len(),
        section_keys(a)[parting(a, b)] != section_keys(b)[parting(a, b)],
        forall|j: int| 0 <= j < parting(a, b) ==> section_keys(a)[j] == section_keys(b)[j],
{
    lemma_key_literals();
}

/// Two different sections' paths part where the semantic status lives
/// too, unless one of them is the semantic references.
proof fn lemma_parting_semantic(b: ExpandSection)
    requires
        b != ExpandSection::All,
        b != ExpandSection::Semantic,
    ensures
        ({
            let i: int = if section_keys(b)[0] != "references"@ { 0 } else { 1 };
            &&& 0 <= i < semantic_keys().len()
            &&& i < section_keys(b).len()
            &&& semantic_keys()[i] != section_keys(b)[i]
            &&& forall|j: int| 0 <= j < i ==> semantic_keys()[j] == section_keys(b)[j]
        }),
{
    lemma_key_literals();
}

/// Relationships at `keys` that all name their `endpoint`.
pub open spec fn endpoints_at(v: JsonView, keys: Seq<Seq<char>>, endpoint: Seq<char>) -> bool {
    match json_at(v, keys) {
        Some(JsonView::Array(rels)) => forall|i: int|
            0 <= i < rels.len() ==> (#[trigger] rels[i]) is Object && crate::json::member_get(rels[i]->Object_0, endpoint)
                is Some,
        _ => true,
    }
}

/// The relationships that compaction reads name both their endpoints.
pub open spec fn endpoints_ready(v: JsonView) -> bool {
    &&& endpoints_at(v, section_keys(ExpandSection::Callers), "to"@)
    &&& endpoints_at(v, section_keys(ExpandSection::Callees), "from"@)
    &&& endpoints_at(v, section_keys(ExpandSection::Inbound), "to"@)
    &&& endpoints_at(v, section_keys(ExpandSection::Outbound), "from"@)
}

proof fn lemma_neighborhood_ready_paths(v: JsonView)
    requires
        v is Object,
    ensures
        neighborhood_ready(v) <==> (anchor_of(v) is Some ==> endpoints_ready(v)),
{
    reveal_with_fuel(json_at, 3);
    lemma_key_literals();
    let c1 = section_keys(ExpandSection::Callers);
    let c2 = section_keys(ExpandSection::Callees);
    let i1 = section_keys(ExpandSection::Inbound);
    let o1 = section_keys(ExpandSection::Outbound);
    assert(c1.drop_first() =~= Seq::<Seq<char>>::empty());
    assert(c2.drop_first() =~= Seq::<Seq<char>>::empty());
    assert(i1.drop_first() =~= seq!["inbound"@]);
    assert(o1.drop_first() =~= seq!["outbound"@]);
    assert(seq!["inbound"@].drop_first() =~= Seq::<Seq<char>>::empty());
    assert(seq!["outbound"@].drop_first() =~= Seq::<Seq<char>>::empty());
    assert(json_at(v, c1) == json_get(v, "callers"@));
    assert(json_at(v, c2) == json_get(v, "callees"@));
    match json_get(v, "references"@) {
        Some(refs) => {
            assert(json_at(v, i1) == json_get(refs, "inbound"@));
            assert(json_at(v, o1) == json_get(refs, "outbound"@));
        },
        None => {
            assert(json_at(v, i1) is None);
            assert(json_at(v, o1) is None);
        },
    }
}

/// A result that keeps a ready result's anchor and context entries, and
/// whose relationships name their endpoints, is ready for compaction.
proof fn lemma_ready_transfer(v: JsonView, w: JsonView)
    requires
        compact_ready(v),
        w is Object,
        json_get(w, "definition"@) == json_get(v, "definition"@),
        json_get(w, "symbol"@) == json_get(v, "symbol"@),
        json_get(w, "context_entries"@) == json_get(v, "context_entries"@),
        anchor_of(v) is Some ==> endpoints_ready(w),
    ensures
        compact_ready(w),
{
    lemma_neighborhood_ready_paths(w);
    assert(anchor_of(w) == anchor_of(v));
    lemma_neighborhood_keeps_entries(v);
    lemma_neighborhood_keeps_entries(w);
}

/// Relationships that all name an endpoint still do with the last one
/// left out.
proof fn lemma_endpoints_prefix(v: JsonView, w: JsonView, keys: Seq<Seq<char>>, endpoint: Seq<char>)
    requires
        endpoints_at(v, keys, endpoint),
        json_at(w, keys) == json_at(v, keys) || (json_at(v, keys) matches Some(JsonView::Array(a)) && a.len() > 0
            && json_at(w, keys) == Some(JsonView::Array(a.drop_last()))),
    ensures
        endpoints_at(w, keys, endpoint),
{
    if json_at(w, keys) != json_at(v, keys) {
        let a = json_at(v, keys)->Some_0->Array_0;
        assert forall|i: int| 0 <= i < a.drop_last().len() implies (#[trigger] a.drop_last()[i]) is Object
            && crate::json::member_get(a.drop_last()[i]->Object_0, endpoint) is Some by {
            assert(a.drop_last()[i] == a[i]);
        }
    }
}


/// The number of items a section holds (none when it is absent).
pub open spec fn items_count(result: JsonView, s: ExpandSection) -> nat {
    match section_items(result, s) {
        Some(a) => a.len(),
        None => 0,
    }
}

/// The items of all relation sections together.
pub open spec fn total_items(result: JsonView) -> nat {
    items_count(result, ExpandSection::Callers) + items_count(result, ExpandSection::Callees) + items_count(
        result,
        ExpandSection::Inbound,
    ) + items_count(result, ExpandSection::Outbound) + items_count(result, ExpandSection::Tests) + items_count(
        result,
        ExpandSection::Semantic,
    )
}

/// What budgeting can still leave out: two for each item, one for the
/// source text.
pub open spec fn budget_measure(result: JsonView) -> nat {
    2 * total_items(result) + if has_source_text(result) {
        1nat
    } else {
        0nat
    }
}

/// Whether a section page answer can be budgeted: ready for compaction;
/// every page names a relation section that holds an array, and the next
/// page's offset fits; the semantic status can count every semantic
/// location as omitted.
pub open spec fn bound_ready(result: JsonView, pages: Seq<SectionPage>) -> bool {
    &&& compact_ready(result)
    &&& forall|i: int|
        0 <= i < pages.len() ==> {
            &&& #[trigger] pages[i].section != ExpandSection::All
            &&& section_items(result, pages[i].section) is Some
            &&& pages[i].offset + items_count(result, pages[i].section) <= usize::MAX
            &&& pages[i].section == ExpandSection::Semantic ==> omission_ready(
                result,
                items_count(result, ExpandSection::Semantic) + 1,
            )
        }
}

/// Two answers hold the same sections, semantic status, anchor, context
/// entries and source.
pub open spec fn same_parts(v: JsonView, w: JsonView) -> bool {
    &&& w is Object
    &&& forall|y: ExpandSection| y != ExpandSection::All ==> json_at(w, #[trigger] section_keys(y)) == json_at(v, section_keys(y))
    &&& json_at(w, semantic_keys()) == json_at(v, semantic_keys())
    &&& json_get(w, "definition"@) == json_get(v, "definition"@)
    &&& json_get(w, "symbol"@) == json_get(v, "symbol"@)
    &&& json_get(w, "context_entries"@) == json_get(v, "context_entries"@)
    &&& json_get(w, "source"@) == json_get(v, "source"@)
}

proof fn lemma_same_parts_keep(v: JsonView, w: JsonView, pages: Seq<SectionPage>)
    requires
        same_parts(v, w),
        bound_ready(v, pages),
    ensures
        bound_ready(w, pages),
        total_items(w) == total_items(v),
        has_source_text(w) == has_source_text(v),
        budget_measure(w) == budget_measure(v),
        forall|y: ExpandSection| y != ExpandSection::All ==> #[trigger] section_items(w, y) == section_items(v, y),
{
    assert forall|y: ExpandSection| y != ExpandSection::All implies #[trigger] section_items(w, y) == section_items(v, y) by {
        assert(json_at(w, section_keys(y)) == json_at(v, section_keys(y)));
    }
    assert(section_items(w, ExpandSection::Callers) == section_items(v, ExpandSection::Callers));
    assert(section_items(w, ExpandSection::Callees) == section_items(v, ExpandSection::Callees));
    assert(section_items(w, ExpandSection::Inbound) == section_items(v, ExpandSection::Inbound));
    assert(section_items(w, ExpandSection::Outbound) == section_items(v, ExpandSection::Outbound));
    assert(section_items(w, ExpandSection::Tests) == section_items(v, ExpandSection::Tests));
    assert(section_items(w, ExpandSection::Semantic) == section_items(v, ExpandSection::Semantic));
    assert(json_at(w, section_keys(ExpandSection::Callers)) == json_at(v, section_keys(ExpandSection::Callers)));
    assert(json_at(w, section_keys(ExpandSection::Callees)) == json_at(v, section_keys(ExpandSection::Callees)));
    assert(json_at(w, section_keys(ExpandSection::Inbound)) == json_at(v, section_keys(ExpandSection::Inbound)));
    assert(json_at(w, section_keys(ExpandSection::Outbound)) == json_at(v, section_keys(ExpandSection::Outbound)));
    lemma_neighborhood_ready_paths(v);
    lemma_ready_transfer(v, w);
    assert forall|i: int| 0 <= i < pages.len() implies {
        &&& #[trigger] pages[i].section != ExpandSection::All
        &&& section_items(w, pages[i].section) is Some
        &&& pages[i].offset + items_count(w, pages[i].section) <= usize::MAX
        &&& pages[i].section == ExpandSection::Semantic ==> omission_ready(w, items_count(w, ExpandSection::Semantic) + 1)
    } by {
        assert(section_items(w, pages[i].section) == section_items(v, pages[i].section));
    }
}

/// Setting a member that no section, anchor, context or source lives under
/// keeps every part.
proof fn lemma_set_member_same_parts(v: JsonView, k: Seq<char>, x: JsonView)
    requires
        v is Object,
        k != "callers"@ && k != "callees"@ && k != "references"@ && k != "tests"@,
        k != "definition"@ && k != "symbol"@ && k != "context_entries"@ && k != "source"@,
    ensures
        same_parts(v, set_member(v, k, x)),
{
    lemma_key_literals();
    let w = set_member(v, k, x);
    assert forall|y: ExpandSection| y != ExpandSection::All implies json_at(w, #[trigger] section_keys(y)) == json_at(
        v,
        section_keys(y),
    ) by {
        lemma_set_member_other_path(v, k, x, section_keys(y));
    }
    lemma_set_member_other_path(v, k, x, semantic_keys());
    lemma_set_member_get(v, k, x, "definition"@);
    lemma_set_member_get(v, k, x, "symbol"@);
    lemma_set_member_get(v, k, x, "context_entries"@);
    lemma_set_member_get(v, k, x, "source"@);
}


proof fn lemma_set_at_object(v: JsonView, keys: Seq<Seq<char>>, x: JsonView)
    requires
        json_at(v, keys) is Some,
        keys.len() > 0,
    ensures
        json_set_at(v, keys, x) is Object,
{
    let c = json_get(v, keys[0])->Some_0;
    assert(v is Object);
    lemma_set_member_get(v, keys[0], json_set_at(c, keys.drop_first(), x), keys[0]);
}

proof fn lemma_single_key_path(v: JsonView, k: Seq<char>)
    ensures
        json_at(v, seq![k]) == json_get(v, k),
{
    reveal_with_fuel(json_at, 2);
    assert(seq![k].drop_first() =~= Seq::<Seq<char>>::empty());
}

/// Replacing the value at a path under another first key than the anchor,
/// context and source keys keeps those.
proof fn lemma_set_at_keeps_members(v: JsonView, a: Seq<Seq<char>>, x: JsonView)
    requires
        json_at(v, a) is Some,
        a.len() > 0,
        a[0] != "definition"@ && a[0] != "symbol"@ && a[0] != "context_entries"@ && a[0] != "source"@,
    ensures
        json_get(json_set_at(v, a, x), "definition"@) == json_get(v, "definition"@),
        json_get(json_set_at(v, a, x), "symbol"@) == json_get(v, "symbol"@),
        json_get(json_set_at(v, a, x), "context_entries"@) == json_get(v, "context_entries"@),
        json_get(json_set_at(v, a, x), "source"@) == json_get(v, "source"@),
{
    let w = json_set_at(v, a, x);
    lemma_set_at_other(v, a, seq!["definition"@], x, 0);
    lemma_set_at_other(v, a, seq!["symbol"@], x, 0);
    lemma_set_at_other(v, a, seq!["context_entries"@], x, 0);
    lemma_set_at_other(v, a, seq!["source"@], x, 0);
    lemma_single_key_path(v, "definition"@);
    lemma_single_key_path(w, "definition"@);
    lemma_single_key_path(v, "symbol"@);
    lemma_single_key_path(w, "symbol"@);
    lemma_single_key_path(v, "context_entries"@);
    lemma_single_key_path(w, "context_entries"@);
    lemma_single_key_path(v, "source"@);
    lemma_single_key_path(w, "source"@);
}

/// A trimming step of a ready answer leaves a ready answer with one item
/// fewer and the same anchor, context entries and source.
pub proof fn lemma_trim_step_effects(w: JsonView, pages: Seq<SectionPage>)
    requires
        bound_ready(w, pages),
        trim_step(w, pages) is Some,
    ensures
        bound_ready(trim_step(w, pages)->Some_0.0, trim_step(w, pages)->Some_0.1),
        total_items(trim_step(w, pages)->Some_0.0) + 1 == total_items(w),
        json_get(trim_step(w, pages)->Some_0.0, "source"@) == json_get(w, "source"@),
        has_source_text(trim_step(w, pages)->Some_0.0) == has_source_text(w),
        budget_measure(trim_step(w, pages)->Some_0.0) + 2 == budget_measure(w),
{
    lemma_key_literals();
    lemma_largest_section_trimmable(w, pages);
    let b = largest_section(w, pages);
    let pg = pages[b];
    let xs = pg.section;
    assert(xs != ExpandSection::All);
    let items = section_items(w, xs)->Some_0;
    let x = JsonView::Array(items.drop_last());
    let keys = section_keys(xs);
    let popped = json_set_at(w, keys, x);
    let next = trim_step(w, pages)->Some_0;
    let r2 = next.0;
    let p2 = next.1;
    assert(pages_ready(w, pages)) by {
        assert forall|i: int| 0 <= i < pages.len() implies {
            &&& #[trigger] pages[i].section != ExpandSection::All
            &&& section_items(w, pages[i].section) is Some
            &&& pages[i].section == ExpandSection::Semantic ==> omission_ready(w, 1)
        } by {}
    }
    lemma_trim_step_section(w, pages);
    lemma_set_at_object(w, keys, x);
    lemma_set_at_keeps_members(w, keys, x);
    // Every other section keeps its items through the pop.
    assert forall|y: ExpandSection| y != ExpandSection::All && y != xs implies json_at(popped, #[trigger] section_keys(y))
        == json_at(w, section_keys(y)) by {
        lemma_parting(xs, y);
        lemma_set_at_other(w, keys, section_keys(y), x, parting(xs, y));
    }
    if xs == ExpandSection::Semantic {
        let sem = json_at(w, semantic_keys())->Some_0;
        let n = json_get(sem, "omitted_locations"@)->Some_0->Number_0->PosInt_0;
        assert(pages[b].section == ExpandSection::Semantic);
        assert(omission_ready(w, items_count(w, ExpandSection::Semantic) + 1));
        assert(omission_ready(w, 1));
        lemma_pop_keeps_omission_ready(w, x);
        lemma_semantic_keys_distinct();
        let semp = json_at(popped, semantic_keys())->Some_0;
        assert(semp == set_member(sem, "locations"@, x));
        lemma_set_member_get(sem, "locations"@, x, "omitted_locations"@);
        let sem1 = set_member(semp, "truncated"@, JsonView::Bool(true));
        let sem2 = set_member(sem1, "omitted_locations"@, JsonView::Number(NumberView::PosInt((n + 1) as u64)));
        assert(r2 == json_set_at(popped, semantic_keys(), sem2));
        lemma_json_set_at_get(popped, semantic_keys(), sem2);
        lemma_set_member_get(semp, "truncated"@, JsonView::Bool(true), "truncated"@);
        lemma_set_member_get(
            sem1,
            "omitted_locations"@,
            JsonView::Number(NumberView::PosInt((n + 1) as u64)),
            "omitted_locations"@,
        );
        assert(semantic_keys()[0] == "references"@);
        lemma_set_at_object(popped, semantic_keys(), sem2);
        lemma_set_at_keeps_members(popped, semantic_keys(), sem2);
        assert forall|y: ExpandSection| y != ExpandSection::All && y != xs implies json_at(r2, #[trigger] section_keys(y))
            == json_at(w, section_keys(y)) by {
            lemma_parting_semantic(y);
            let i: int = if section_keys(y)[0] != "references"@ { 0 } else { 1 };
            lemma_set_at_other(popped, semantic_keys(), section_keys(y), sem2, i);
        }
        assert(omission_ready(r2, items_count(r2, ExpandSection::Semantic) + 1));
    } else {
        assert(r2 == popped);
        lemma_parting_semantic(xs);
        let i: int = if section_keys(xs)[0] != "references"@ { 0 } else { 1 };
        lemma_set_at_other(w, keys, semantic_keys(), x, i);
    }
    // The counts: one item fewer in the trimmed section, the rest as before.
    assert forall|y: ExpandSection| y != ExpandSection::All && y != xs implies #[trigger] section_items(r2, y)
        == section_items(w, y) by {}
    assert(section_items(r2, xs) == Some(items.drop_last()));
    assert(items_count(r2, xs) + 1 == items_count(w, xs));
    assert(total_items(r2) + 1 == total_items(w)) by {
        assert(section_items(r2, ExpandSection::Callers) == section_items(w, ExpandSection::Callers) || xs
            == ExpandSection::Callers);
        assert(section_items(r2, ExpandSection::Callees) == section_items(w, ExpandSection::Callees) || xs
            == ExpandSection::Callees);
        assert(section_items(r2, ExpandSection::Inbound) == section_items(w, ExpandSection::Inbound) || xs
            == ExpandSection::Inbound);
        assert(section_items(r2, ExpandSection::Outbound) == section_items(w, ExpandSection::Outbound) || xs
            == ExpandSection::Outbound);
        assert(section_items(r2, ExpandSection::Tests) == section_items(w, ExpandSection::Tests) || xs
            == ExpandSection::Tests);
        assert(section_items(r2, ExpandSection::Semantic) == section_items(w, ExpandSection::Semantic) || xs
            == ExpandSection::Semantic);
    }
    // Ready for compaction.
    lemma_neighborhood_ready_paths(w);
    assert(anchor_of(w) is Some ==> endpoints_ready(r2)) by {
        if anchor_of(w) is Some {
            assert(endpoints_ready(w));
            lemma_endpoints_prefix(w, r2, section_keys(ExpandSection::Callers), "to"@);
            lemma_endpoints_prefix(w, r2, section_keys(ExpandSection::Callees), "from"@);
            lemma_endpoints_prefix(w, r2, section_keys(ExpandSection::Inbound), "to"@);
            lemma_endpoints_prefix(w, r2, section_keys(ExpandSection::Outbound), "from"@);
        }
    }
    lemma_ready_transfer(w, r2);
    assert forall|i: int| 0 <= i < p2.len() implies {
        &&& #[trigger] p2[i].section != ExpandSection::All
        &&& section_items(r2, p2[i].section) is Some
        &&& p2[i].offset + items_count(r2, p2[i].section) <= usize::MAX
        &&& p2[i].section == ExpandSection::Semantic ==> omission_ready(r2, items_count(r2, ExpandSection::Semantic) + 1)
    } by {
        assert(p2[i].section == pages[i].section && p2[i].offset == pages[i].offset);
        if pages[i].section != xs {
            assert(section_items(r2, pages[i].section) == section_items(w, pages[i].section));
        }
        if pages[i].section == ExpandSection::Semantic && xs != ExpandSection::Semantic {
            assert(json_at(r2, semantic_keys()) == json_at(w, semantic_keys()));
            assert(section_items(r2, ExpandSection::Semantic) == section_items(w, ExpandSection::Semantic));
        }
    }
}


// ---------------------------------------------------------------------------
// The compact budget of a section page
// ---------------------------------------------------------------------------
/// What the continuation cursors of an `expand` page are bound to: the
/// section asked for, the index generation, the repository, the symbol and
/// the snapshot of its semantic answer.
pub struct PageContext {
    pub section: ExpandSection,
    pub generation: i64,
    pub repository_root: String,
    pub node_id: String,
    pub semantic_snapshot: Option<String>,
}

/// The scope of a section's cursors: the request `expand`, the repository,
/// the symbol and the section.
pub open spec fn section_scope(root: Seq<char>, node_id: Seq<char>, s: ExpandSection) -> Seq<char> {
    hex_lower(sha256(scope_bytes(seq!["expand"@, root, node_id, expand_section_name(s)])))
}

/// The cursor of the page that follows the items that `p`'s section shows.
pub open spec fn next_cursor_text(result: JsonView, p: SectionPage, ctx: PageContext) -> Seq<char> {
    hex_lower(
        encode_utf8(
            section_cursor_json(
                PAGE_CURSOR_VERSION,
                ctx.generation,
                (p.offset + items_count(result, p.section)) as usize,
                section_scope(ctx.repository_root@, ctx.node_id@, p.section),
                expected_snapshot(p.section, opt_view(ctx.semantic_snapshot)),
            ),
        ),
    )
}

/// The `next` members: for each page with more items, its section's name
/// and the cursor that continues it.
pub open spec fn next_members(result: JsonView, pages: Seq<SectionPage>, ctx: PageContext) -> Seq<
    (Seq<char>, JsonView),
>
    decreases pages.len(),
{
    if pages.len() == 0 {
        Seq::empty()
    } else {
        let rest = next_members(result, pages.drop_last(), ctx);
        let p = pages.last();
        if p.more {
            crate::json::member_insert(
                rest,
                expand_section_name(p.section),
                JsonView::String(next_cursor_text(result, p, ctx)),
            )
        } else {
            rest
        }
    }
}

/// The answer with its continuations: `truncated` says whether any page
/// has more items, `next` holds their cursors.
pub open spec fn with_next(result: JsonView, pages: Seq<SectionPage>, ctx: PageContext) -> JsonView {
    let next = next_members(result, pages, ctx);
    set_member(
        set_member(result, "truncated"@, JsonView::Bool(next.len() > 0)),
        "next"@,
        JsonView::Object(next),
    )
}

pub proof fn lemma_with_next_parts(result: JsonView, pages: Seq<SectionPage>, ctx: PageContext)
    requires
        bound_ready(result, pages),
    ensures
        bound_ready(with_next(result, pages, ctx), pages),
        budget_measure(with_next(result, pages, ctx)) == budget_measure(result),
        forall|y: ExpandSection| y != ExpandSection::All ==> #[trigger] section_items(with_next(result, pages, ctx), y)
            == section_items(result, y),
{
    lemma_key_literals();
    let next = next_members(result, pages, ctx);
    let t = set_member(result, "truncated"@, JsonView::Bool(next.len() > 0));
    lemma_set_member_same_parts(result, "truncated"@, JsonView::Bool(next.len() > 0));
    lemma_same_parts_keep(result, t, pages);
    lemma_set_member_same_parts(t, "next"@, JsonView::Object(next));
    lemma_same_parts_keep(t, with_next(result, pages, ctx), pages);
}

pub proof fn lemma_source_omitted(w: JsonView, pages: Seq<SectionPage>)
    requires
        bound_ready(w, pages),
        has_source_text(w),
    ensures
        bound_ready(set_member(w, "source"@, omitted_source()), pages),
        budget_measure(set_member(w, "source"@, omitted_source())) + 1 == budget_measure(w),
{
    lemma_key_literals();
    let w2 = set_member(w, "source"@, omitted_source());
    assert(w is Object);
    assert forall|y: ExpandSection| y != ExpandSection::All implies json_at(w2, #[trigger] section_keys(y)) == json_at(
        w,
        section_keys(y),
    ) by {
        lemma_set_member_other_path(w, "source"@, omitted_source(), section_keys(y));
    }
    lemma_set_member_other_path(w, "source"@, omitted_source(), semantic_keys());
    lemma_set_member_get(w, "source"@, omitted_source(), "definition"@);
    lemma_set_member_get(w, "source"@, omitted_source(), "symbol"@);
    lemma_set_member_get(w, "source"@, omitted_source(), "context_entries"@);
    lemma_set_member_get(w, "source"@, omitted_source(), "source"@);
    reveal_strlit("text");
    reveal_strlit("reason");
    reveal_strlit("status");
    reveal_strlit("truncated");
    assert("text"@[0] != "reason"@[0] && "text"@[0] != "status"@[0] && "text"@[1] != "truncated"@[1]);
    reveal_with_fuel(crate::json::member_position, 4);
    assert(!has_source_text(w2));
    // Everything but the source is as before.
    assert forall|y: ExpandSection| y != ExpandSection::All implies #[trigger] section_items(w2, y) == section_items(w, y) by {
        assert(json_at(w2, section_keys(y)) == json_at(w, section_keys(y)));
    }
    assert(total_items(w2) == total_items(w)) by {
        assert(section_items(w2, ExpandSection::Callers) == section_items(w, ExpandSection::Callers));
        assert(section_items(w2, ExpandSection::Callees) == section_items(w, ExpandSection::Callees));
        assert(section_items(w2, ExpandSection::Inbound) == section_items(w, ExpandSection::Inbound));
        assert(section_items(w2, ExpandSection::Outbound) == section_items(w, ExpandSection::Outbound));
        assert(section_items(w2, ExpandSection::Tests) == section_items(w, ExpandSection::Tests));
        assert(section_items(w2, ExpandSection::Semantic) == section_items(w, ExpandSection::Semantic));
    }
    lemma_neighborhood_ready_paths(w);
    assert(json_at(w2, section_keys(ExpandSection::Callers)) == json_at(w, section_keys(ExpandSection::Callers)));
    assert(json_at(w2, section_keys(ExpandSection::Callees)) == json_at(w, section_keys(ExpandSection::Callees)));
    assert(json_at(w2, section_keys(ExpandSection::Inbound)) == json_at(w, section_keys(ExpandSection::Inbound)));
    assert(json_at(w2, section_keys(ExpandSection::Outbound)) == json_at(w, section_keys(ExpandSection::Outbound)));
    lemma_ready_transfer(w, w2);
    assert forall|i: int| 0 <= i < pages.len() implies {
        &&& #[trigger] pages[i].section != ExpandSection::All
        &&& section_items(w2, pages[i].section) is Some
        &&& pages[i].offset + items_count(w2, pages[i].section) <= usize::MAX
        &&& pages[i].section == ExpandSection::Semantic ==> omission_ready(w2, items_count(w2, ExpandSection::Semantic) + 1)
    } by {
        assert(section_items(w2, pages[i].section) == section_items(w, pages[i].section));
    }
}

/// A compact section page within the budget: with its continuations, it is
/// presented when it fits, unless a single-section page shows an emptied
/// section (one fact alone exceeds the budget); otherwise the largest
/// section with items left loses its last item, and when none has items
/// left the definition's source text is left out; an answer that still
/// does not fit is refused.
pub open spec fn bound_page_spec(result: JsonView, pages: Seq<SectionPage>, ctx: PageContext) -> Result<
    JsonView,
    ErrorView,
>
    decreases budget_measure(result),
    when bound_ready(result, pages)
{
    let w = with_next(result, pages, ctx);
    if within_budget(w) {
        if one_fact_exceeds(w, ctx.section, pages) {
            Err(ErrorView::Mcp(budget_exceeded_message()))
        } else {
            Ok(presented(w))
        }
    } else {
        match trim_step(w, pages) {
            Some(next) => {
                proof {
                    lemma_with_next_parts(result, pages, ctx);
                    lemma_trim_step_effects(w, pages);
                }
                bound_page_spec(next.0, next.1, ctx)
            },
            None => if has_source_text(w) {
                proof {
                    lemma_with_next_parts(result, pages, ctx);
                    lemma_source_omitted(w, pages);
                }
                bound_page_spec(set_member(w, "source"@, omitted_source()), pages, ctx)
            } else {
                Err(ErrorView::Mcp(budget_exceeded_message()))
            },
        }
    }
}


/// The `next` object of a page (see [`next_members`]).
fn next_map(result: &JsonValue, pages: &Vec<SectionPage>, ctx: &PageContext) -> (r: JsonValue)
    requires
        bound_ready(result@, pages@),
    ensures
        r@ == JsonView::Object(next_members(result@, pages@, *ctx)),
{
    let mut next = JsonValue::object();
    let mut i: usize = 0;
    while i < pages.len()
        invariant
            i <= pages@.len(),
            bound_ready(result@, pages@),
            next@ == JsonView::Object(next_members(result@, pages@.take(i as int), *ctx)),
        decreases pages@.len() - i,
    {
        assert(pages@.take(i + 1).drop_last() =~= pages@.take(i as int));
        assert(pages@.take(i + 1).last() == pages@[i as int]);
        let p = pages[i];
        if p.more {
            assert(p.section != ExpandSection::All && section_items(result@, p.section) is Some);
            let keys = section_key_list(p.section);
            let count = match get_at(result, keys.as_slice()) {
                Some(JsonValue::Array(a)) => {
                    proof {
                        lemma_items_view(a@, a@.len() as int);
                    }
                    a.len()
                },
                _ => 0,
            };
            assert(count == items_count(result@, p.section));
            let parts = vec!["expand", ctx.repository_root.as_str(), ctx.node_id.as_str(), p.section.as_str()];
            assert(strs_view(parts@) =~= seq!["expand"@, ctx.repository_root@, ctx.node_id@, expand_section_name(p.section)]);
            let scope = page_scope(parts.as_slice());
            let snapshot = if p.section == ExpandSection::Semantic {
                match &ctx.semantic_snapshot {
                    Some(h) => Some(h.as_str()),
                    None => None,
                }
            } else {
                None
            };
            assert(match snapshot {
                Some(h) => Some(h@),
                None => None,
            } == expected_snapshot(p.section, opt_view(ctx.semantic_snapshot)));
            let cursor = encode_section_cursor(ctx.generation, p.offset + count, scope.as_str(), snapshot);
            next.insert(p.section.as_str().to_owned(), JsonValue::String(cursor));
        }
        i = i + 1;
    }
    assert(pages@.take(pages@.len() as int) =~= pages@);
    next
}

/// Bounds a compact `expand` section page to the budget (see
/// [`bound_page_spec`]): what it answers always fits.
#[verifier::loop_isolation(false)]
pub fn bound_expand_page(result: JsonValue, pages: Vec<SectionPage>, ctx: &PageContext) -> (r: Result<
    JsonValue,
    CodeFactsError,
>)
    requires
        bound_ready(result@, pages@),
    ensures
        match r {
            Ok(v) => bound_page_spec(result@, pages@, *ctx) == Ok::<JsonView, ErrorView>(v@),
            Err(e) => bound_page_spec(result@, pages@, *ctx) == Err::<JsonView, ErrorView>(error_view(e)),
        },
{
    let ghost goal = bound_page_spec(result@, pages@, *ctx);
    let mut result = result;
    let mut pages = pages;
    loop
        invariant
            bound_ready(result@, pages@),
            bound_page_spec(result@, pages@, *ctx) == goal,
        decreases budget_measure(result@),
    {
        let ghost current = result@;
        proof {
            lemma_with_next_parts(current, pages@, *ctx);
            lemma_key_literals();
        }
        let next = next_map(&result, &pages, ctx);
        let nonempty = match &next {
            JsonValue::Object(m) => {
                proof {
                    crate::json::lemma_members_view(m@, m@.len() as int);
                }
                m.len() > 0
            },
            _ => false,
        };
        result.insert("truncated".to_owned(), JsonValue::Bool(nonempty));
        result.insert("next".to_owned(), next);
        let ghost w = result@;
        assert(w == with_next(current, pages@, *ctx));
        assert(bound_ready(w, pages@));
        let mut shown = compact(result.copy());
        shown.insert("max_bytes".to_owned(), JsonValue::Number(JsonNumber::PosInt(16384)));
        assert(shown@ == presented(w));
        let text = chars_of(shown.to_json_string().as_str());
        assert(pages_ready(w, pages@));
        if fits_in_bytes(text.as_slice(), COMPACT_EXPAND_BYTES) {
            assert(within_budget(w));
            assert(bound_page_spec(current, pages@, *ctx) == if one_fact_exceeds(w, ctx.section, pages@) {
                Err::<JsonView, ErrorView>(ErrorView::Mcp(budget_exceeded_message()))
            } else {
                Ok::<JsonView, ErrorView>(presented(w))
            });
            if fact_exceeds_budget(&result, ctx.section, pages.as_slice()) {
                return Err(
                    CodeFactsError::Mcp("One fact exceeds the compact response budget; request format=full.".to_owned()),
                );
            }
            return Ok(shown);
        }
        assert(!within_budget(w));
        let ghost trimmed = trim_step(w, pages@);
        let ghost pv = pages@;
        if trim_largest_section(&mut result, &mut pages) {
            proof {
                lemma_trim_step_effects(w, pv);
            }
            assert(result@ == trimmed->Some_0.0);
            continue;
        }
        if omit_source_text(&mut result) {
            proof {
                lemma_source_omitted(w, pages@);
            }
            continue;
        }
        return Err(
            CodeFactsError::Mcp("One fact exceeds the compact response budget; request format=full.".to_owned()),
        );
    }
}


/// What a bounded section page answers fits the compact budget.
pub proof fn lemma_bound_page_fits(result: JsonView, pages: Seq<SectionPage>, ctx: PageContext)
    requires
        bound_ready(result, pages),
        bound_page_spec(result, pages, ctx) is Ok,
    ensures
        utf8_len(json_text(bound_page_spec(result, pages, ctx)->Ok_0)) <= COMPACT_EXPAND_BYTES,
    decreases budget_measure(result),
{
    let w = with_next(result, pages, ctx);
    lemma_with_next_parts(result, pages, ctx);
    if !within_budget(w) {
        match trim_step(w, pages) {
            Some(next) => {
                lemma_trim_step_effects(w, pages);
                lemma_bound_page_fits(next.0, next.1, ctx);
            },
            None => {
                if has_source_text(w) {
                    lemma_source_omitted(w, pages);
                    lemma_bound_page_fits(set_member(w, "source"@, omitted_source()), pages, ctx);
                }
            },
        }
    }
}

} // verus!
