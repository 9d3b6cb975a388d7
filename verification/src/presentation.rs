//! Compact presentation of tool results. Facts and their uncertainty remain
//! unchanged; shared hashes and relationship anchors are written once per
//! response.
use vstd::prelude::*;

use crate::json::{
    items_view, json_equal, json_get, json_view, key_slot, lemma_items_view, lemma_member_position_bounds,
    lemma_members_view, member_get, member_insert, member_position, member_remove, members_view, JsonNumber, JsonValue,
    JsonView, NumberView,
};
use crate::text::str_eq;

pub mod markdown;

verus! {

// ---------------------------------------------------------------------------
// Relationship anchors
// ---------------------------------------------------------------------------
/// The `id` member of a value, or null (`value["id"]`).
pub open spec fn id_of(v: JsonView) -> JsonView {
    match json_get(v, "id"@) {
        Some(id) => id,
        None => JsonView::Null,
    }
}

/// The id of an entry's own anchor: its definition's when it has a
/// definition, else its symbol's.
pub open spec fn anchor_of(v: JsonView) -> Option<JsonView> {
    match json_get(v, "definition"@) {
        Some(d) => json_get(d, "id"@),
        None => match json_get(v, "symbol"@) {
            Some(s) => json_get(s, "id"@),
            None => None,
        },
    }
}

/// A relationship without its `endpoint` member when that endpoint is the
/// anchor itself.
pub open spec fn drop_anchor_endpoint(rel: JsonView, endpoint: Seq<char>, anchor: JsonView) -> JsonView {
    match rel {
        JsonView::Object(fields) => match member_get(fields, endpoint) {
            Some(e) => if id_of(e) == anchor {
                JsonView::Object(member_remove(fields, endpoint))
            } else {
                rel
            },
            None => rel,
        },
        _ => rel,
    }
}

/// An object with member `key` set to `x`; other values unchanged.
pub open spec fn set_member(v: JsonView, key: Seq<char>, x: JsonView) -> JsonView {
    match v {
        JsonView::Object(m) => JsonView::Object(member_insert(m, key, x)),
        _ => v,
    }
}

/// `v` with every relationship of its array member `key` dropping the
/// `endpoint` that repeats the anchor.
pub open spec fn strip_member(v: JsonView, key: Seq<char>, endpoint: Seq<char>, anchor: JsonView) -> JsonView {
    match json_get(v, key) {
        Some(JsonView::Array(rels)) => set_member(
            v,
            key,
            JsonView::Array(rels.map_values(|r: JsonView| drop_anchor_endpoint(r, endpoint, anchor))),
        ),
        _ => v,
    }
}

/// A result or context entry whose callers, callees and references no
/// longer repeat its own anchor as their `to` or `from` endpoint.
pub open spec fn compact_neighborhood(v: JsonView) -> JsonView {
    match anchor_of(v) {
        None => v,
        Some(anchor) => {
            let callers = strip_member(v, "callers"@, "to"@, anchor);
            let callees = strip_member(callers, "callees"@, "from"@, anchor);
            match json_get(callees, "references"@) {
                Some(refs) => set_member(
                    callees,
                    "references"@,
                    strip_member(strip_member(refs, "inbound"@, "to"@, anchor), "outbound"@, "from"@, anchor),
                ),
                None => callees,
            }
        },
    }
}

/// Every relationship of the array member `key` is an object with an
/// `endpoint` member.
pub open spec fn endpoints_present(v: JsonView, key: Seq<char>, endpoint: Seq<char>) -> bool {
    match json_get(v, key) {
        Some(JsonView::Array(rels)) => forall|i: int|
            0 <= i < rels.len() ==> (#[trigger] rels[i]) is Object && member_get(rels[i]->Object_0, endpoint) is Some,
        _ => true,
    }
}

/// The relationships of an anchored entry name both their endpoints.
pub open spec fn neighborhood_ready(v: JsonView) -> bool {
    anchor_of(v) is Some ==> {
        &&& endpoints_present(v, "callers"@, "to"@)
        &&& endpoints_present(v, "callees"@, "from"@)
        &&& match json_get(v, "references"@) {
            Some(refs) => endpoints_present(refs, "inbound"@, "to"@) && endpoints_present(refs, "outbound"@, "from"@),
            None => true,
        }
    }
}

// ---------------------------------------------------------------------------
// Freshness and hashes
// ---------------------------------------------------------------------------
/// Freshness keeps its generation and every count that is not zero.
pub open spec fn freshness_member_kept(m: (Seq<char>, JsonView)) -> bool {
    m.0 == "generation"@ || m.1 != JsonView::Number(NumberView::PosInt(0))
}

/// The kept members among the first `k`.
pub open spec fn freshness_kept(fields: Seq<(Seq<char>, JsonView)>, k: int) -> Seq<(Seq<char>, JsonView)>
    decreases k,
{
    if k <= 0 || k > fields.len() {
        Seq::empty()
    } else if freshness_member_kept(fields[k - 1]) {
        freshness_kept(fields, k - 1).push(fields[k - 1])
    } else {
        freshness_kept(fields, k - 1)
    }
}

/// Whether an object names a file and carries its source hash.
pub open spec fn hashed_file(fields: Seq<(Seq<char>, JsonView)>) -> bool {
    member_get(fields, "file_path"@) matches Some(JsonView::String(_)) && member_get(fields, "source_hash"@) is Some
}

/// `v` without null members and without the source hash of any object that
/// names its file, together with `hashes` extended by each such file's hash
/// (visited parent first, members and items in order; a later hash of the
/// same file wins).
pub open spec fn share_value(v: JsonView, hashes: Seq<(Seq<char>, JsonView)>) -> (JsonView, Seq<(Seq<char>, JsonView)>)
    decreases v, 0int,
{
    match v {
        JsonView::Object(fields) => {
            let own = if hashed_file(fields) {
                member_insert(
                    hashes,
                    member_get(fields, "file_path"@)->Some_0->String_0,
                    member_get(fields, "source_hash"@)->Some_0,
                )
            } else {
                hashes
            };
            let (members, shared) = share_members(fields, fields.len() as int, hashed_file(fields), own);
            (JsonView::Object(members), shared)
        },
        JsonView::Array(items) => {
            let (shared_items, shared) = share_items(items, items.len() as int, hashes);
            (JsonView::Array(shared_items), shared)
        },
        _ => (v, hashes),
    }
}

/// The first `k` members shared in order; null members are dropped, and so
/// is the source hash when `drop_hash`.
pub open spec fn share_members(
    fields: Seq<(Seq<char>, JsonView)>,
    k: int,
    drop_hash: bool,
    hashes: Seq<(Seq<char>, JsonView)>,
) -> (Seq<(Seq<char>, JsonView)>, Seq<(Seq<char>, JsonView)>)
    decreases fields, k,
{
    if k <= 0 || k > fields.len() {
        (Seq::empty(), hashes)
    } else {
        let (before, h) = share_members(fields, k - 1, drop_hash, hashes);
        if fields[k - 1].1 is Null || (drop_hash && fields[k - 1].0 == "source_hash"@) {
            (before, h)
        } else {
            let (value, h2) = share_value(fields[k - 1].1, h);
            (before.push((fields[k - 1].0, value)), h2)
        }
    }
}

/// The first `k` items shared in order.
pub open spec fn share_items(items: Seq<JsonView>, k: int, hashes: Seq<(Seq<char>, JsonView)>) -> (
    Seq<JsonView>,
    Seq<(Seq<char>, JsonView)>,
)
    decreases items, k,
{
    if k <= 0 || k > items.len() {
        (Seq::empty(), hashes)
    } else {
        let (before, h) = share_items(items, k - 1, hashes);
        let (value, h2) = share_value(items[k - 1], h);
        (before.push(value), h2)
    }
}

/// What a tool result may be compacted from: an object whose own and whose
/// context entries' relationships name both endpoints.
pub open spec fn compact_ready(v: JsonView) -> bool {
    &&& v is Object
    &&& neighborhood_ready(v)
    &&& match json_get(compact_neighborhood(v), "context_entries"@) {
        Some(JsonView::Array(entries)) => forall|i: int|
            0 <= i < entries.len() ==> neighborhood_ready(#[trigger] entries[i]),
        _ => true,
    }
}

/// A tool result with anchors written once and zero freshness counts left
/// out: what compaction shares hashes from.
pub open spec fn compact_stages(v: JsonView) -> JsonView {
    let anchored = compact_neighborhood(v);
    let entries = match json_get(anchored, "context_entries"@) {
        Some(JsonView::Array(entries)) => set_member(
            anchored,
            "context_entries"@,
            JsonView::Array(entries.map_values(|e: JsonView| compact_neighborhood(e))),
        ),
        _ => anchored,
    };
    match json_get(entries, "freshness"@) {
        Some(JsonView::Object(f)) => set_member(
            entries,
            "freshness"@,
            JsonView::Object(freshness_kept(f, f.len() as int)),
        ),
        _ => entries,
    }
}

/// The compact form of a tool result: anchors written once, zero freshness
/// counts left out, nulls left out, source hashes gathered into
/// `source_hashes` by file, and `format` set to `compact`.
pub open spec fn compact_spec(v: JsonView) -> JsonView {
    let (shared, hashes) = share_value(compact_stages(v), Seq::empty());
    let formatted = member_insert(shared->Object_0, "format"@, JsonView::String("compact"@));
    if hashes.len() > 0 {
        JsonView::Object(member_insert(formatted, "source_hashes"@, JsonView::Object(hashes)))
    } else {
        JsonView::Object(formatted)
    }
}

// ---------------------------------------------------------------------------
// Executable compaction
// ---------------------------------------------------------------------------
/// A copy of the `id` member of `v` when `v` has one.
fn member_id(v: &JsonValue) -> (r: Option<JsonValue>)
    ensures
        match r {
            Some(x) => json_get(v@, "id"@) == Some(x@),
            None => json_get(v@, "id"@) is None,
        },
{
    match v.get("id") {
        Some(x) => Some(x.copy()),
        None => None,
    }
}

/// A copy of the entry's anchor (see [`anchor_of`]).
fn anchor(v: &JsonValue) -> (r: Option<JsonValue>)
    ensures
        match r {
            Some(x) => anchor_of(v@) == Some(x@),
            None => anchor_of(v@) is None,
        },
{
    match v.get("definition") {
        Some(d) => member_id(d),
        None => match v.get("symbol") {
            Some(symbol) => member_id(symbol),
            None => None,
        },
    }
}

/// See [`drop_anchor_endpoint`].
fn drop_endpoint(rel: &JsonValue, endpoint: &str, anchor: &JsonValue) -> (r: JsonValue)
    ensures
        r@ == drop_anchor_endpoint(rel@, endpoint@, anchor@),
{
    let repeats = match rel.get(endpoint) {
        Some(e) => {
            let id = match member_id(e) {
                Some(id) => id,
                None => JsonValue::Null,
            };
            json_equal(&id, anchor)
        },
        None => false,
    };
    let mut r = rel.copy();
    if repeats {
        r.remove(endpoint);
    }
    r
}

/// See [`strip_member`].
fn strip(v: &mut JsonValue, key: &str, endpoint: &str, anchor: &JsonValue)
    ensures
        final(v)@ == strip_member(old(v)@, key@, endpoint@, anchor@),
{
    let replaced = match v.get(key) {
        Some(JsonValue::Array(rels)) => {
            proof {
                lemma_items_view(rels@, rels@.len() as int);
            }
            let ghost rv = items_view(rels@, rels@.len() as int);
            let mut out: Vec<JsonValue> = Vec::new();
            let mut i: usize = 0;
            while i < rels.len()
                invariant
                    i <= rels@.len(),
                    rv == items_view(rels@, rels@.len() as int),
                    rv.len() == rels@.len(),
                    forall|j: int| 0 <= j < rels@.len() ==> #[trigger] rv[j] == json_view(rels@[j]),
                    out@.len() == i,
                    forall|j: int| 0 <= j < i ==> (#[trigger] out@[j])@ == drop_anchor_endpoint(rv[j], endpoint@, anchor@),
                decreases rels@.len() - i,
            {
                assert(rv[i as int] == rels@[i as int]@);
                out.push(drop_endpoint(&rels[i], endpoint, anchor));
                i = i + 1;
            }
            proof {
                lemma_items_view(out@, out@.len() as int);
                assert(items_view(out@, out@.len() as int) =~= rv.map_values(
                    |r: JsonView| drop_anchor_endpoint(r, endpoint@, anchor@),
                ));
            }
            Some(JsonValue::Array(out))
        },
        _ => None,
    };
    match replaced {
        Some(x) => v.insert(key.to_owned(), x),
        None => {},
    }
}

/// See [`compact_neighborhood`].
fn compact_entry(v: &mut JsonValue)
    ensures
        final(v)@ == compact_neighborhood(old(v)@),
{
    let anchor = match anchor(v) {
        Some(a) => a,
        None => return,
    };
    strip(v, "callers", "to", &anchor);
    strip(v, "callees", "from", &anchor);
    let refs = match v.get("references") {
        Some(r) => Some(r.copy()),
        None => None,
    };
    match refs {
        Some(mut r) => {
            strip(&mut r, "inbound", "to", &anchor);
            strip(&mut r, "outbound", "from", &anchor);
            v.insert("references".to_owned(), r);
        },
        None => {},
    }
}

/// The kept freshness members (see [`freshness_kept`]).
fn kept_freshness(fields: &Vec<(String, JsonValue)>) -> (r: Vec<(String, JsonValue)>)
    ensures
        members_view(r@, r@.len() as int) == freshness_kept(
            members_view(fields@, fields@.len() as int),
            fields@.len() as int,
        ),
{
    let ghost m = members_view(fields@, fields@.len() as int);
    proof {
        lemma_members_view(fields@, fields@.len() as int);
    }
    let mut out: Vec<(String, JsonValue)> = Vec::new();
    let mut i: usize = 0;
    while i < fields.len()
        invariant
            i <= fields@.len(),
            m == members_view(fields@, fields@.len() as int),
            m.len() == fields@.len(),
            forall|j: int| 0 <= j < fields@.len() ==> #[trigger] m[j] == (fields@[j].0@, json_view(fields@[j].1)),
            members_view(out@, out@.len() as int) == freshness_kept(m, i as int),
        decreases fields@.len() - i,
    {
        assert(m[i as int] == (fields@[i as int].0@, fields@[i as int].1@));
        let zero = match &fields[i].1 {
            JsonValue::Number(JsonNumber::PosInt(n)) => *n == 0,
            _ => false,
        };
        if str_eq(fields[i].0.as_str(), "generation") || !zero {
            let ghost before = out@;
            out.push((fields[i].0.clone(), fields[i].1.copy()));
            proof {
                lemma_members_view(out@, out@.len() as int);
                lemma_members_view(before, before.len() as int);
                assert(members_view(out@, out@.len() as int) =~= members_view(before, before.len() as int).push(
                    m[i as int],
                ));
            }
        }
        i = i + 1;
    }
    out
}

/// See [`share_value`]: the shared copy of `v`, with `hashes` extended.
fn share(v: &JsonValue, hashes: &mut JsonValue) -> (r: JsonValue)
    requires
        old(hashes)@ is Object,
    ensures
        final(hashes)@ is Object,
        (r@, final(hashes)@->Object_0) == share_value(v@, old(hashes)@->Object_0),
    decreases *v,
{
    match v {
        JsonValue::Object(fields) => {
            let ghost m = members_view(fields@, fields@.len() as int);
            proof {
                lemma_members_view(fields@, fields@.len() as int);
            }
            let drop_hash = match (v.get("file_path"), v.get("source_hash")) {
                (Some(JsonValue::String(file)), Some(hash)) => {
                    hashes.insert(file.clone(), hash.copy());
                    true
                },
                _ => false,
            };
            let ghost own = hashes@->Object_0;
            let mut out: Vec<(String, JsonValue)> = Vec::new();
            let mut i: usize = 0;
            while i < fields.len()
                invariant
                    i <= fields@.len(),
                    *v == JsonValue::Object(*fields),
                    m == members_view(fields@, fields@.len() as int),
                    m.len() == fields@.len(),
                    forall|j: int|
                        0 <= j < fields@.len() ==> #[trigger] m[j] == (fields@[j].0@, json_view(fields@[j].1)),
                    hashes@ is Object,
                    (members_view(out@, out@.len() as int), hashes@->Object_0) == share_members(
                        m,
                        i as int,
                        drop_hash,
                        own,
                    ),
                decreases fields@.len() - i,
            {
                assert(m[i as int] == (fields@[i as int].0@, fields@[i as int].1@));
                let skip = fields[i].1.is_null() || (drop_hash && str_eq(fields[i].0.as_str(), "source_hash"));
                if !skip {
                    proof {
                        assert(decreases_to!(*v => (*v)->Object_0));
                        assert(decreases_to!(*fields => fields@));
                        assert(decreases_to!(fields@ => fields@[i as int]));
                        assert(decreases_to!(fields@[i as int] => fields@[i as int].1));
                    }
                    let value = share(&fields[i].1, hashes);
                    let ghost before = out@;
                    out.push((fields[i].0.clone(), value));
                    proof {
                        lemma_members_view(out@, out@.len() as int);
                        lemma_members_view(before, before.len() as int);
                        assert(members_view(out@, out@.len() as int) =~= members_view(before, before.len() as int).push(
                            (m[i as int].0, value@),
                        ));
                    }
                }
                i = i + 1;
            }
            JsonValue::Object(out)
        },
        JsonValue::Array(items) => {
            let ghost iv = items_view(items@, items@.len() as int);
            proof {
                lemma_items_view(items@, items@.len() as int);
            }
            let ghost start = hashes@->Object_0;
            let mut out: Vec<JsonValue> = Vec::new();
            let mut i: usize = 0;
            while i < items.len()
                invariant
                    i <= items@.len(),
                    *v == JsonValue::Array(*items),
                    iv == items_view(items@, items@.len() as int),
                    iv.len() == items@.len(),
                    forall|j: int| 0 <= j < items@.len() ==> #[trigger] iv[j] == json_view(items@[j]),
                    hashes@ is Object,
                    (items_view(out@, out@.len() as int), hashes@->Object_0) == share_items(iv, i as int, start),
                decreases items@.len() - i,
            {
                assert(iv[i as int] == items@[i as int]@);
                proof {
                    assert(decreases_to!(*v => (*v)->Array_0));
                    assert(decreases_to!(*items => items@));
                    assert(decreases_to!(items@ => items@[i as int]));
                }
                let value = share(&items[i], hashes);
                let ghost before = out@;
                out.push(value);
                proof {
                    lemma_items_view(out@, out@.len() as int);
                    lemma_items_view(before, before.len() as int);
                    assert(items_view(out@, out@.len() as int) =~= items_view(before, before.len() as int).push(
                        value@,
                    ));
                }
                i = i + 1;
            }
            JsonValue::Array(out)
        },
        _ => v.copy(),
    }
}

/// The compact form of a tool result (see [`compact_spec`]).
pub fn compact(value: JsonValue) -> (r: JsonValue)
    requires
        compact_ready(value@),
    ensures
        r@ == compact_spec(value@),
{
    let ghost original = value@;
    let mut value = value;
    compact_entry(&mut value);
    let ghost anchored = compact_neighborhood(original);
    assert(value@ == anchored);
    let entries = match value.get("context_entries") {
        Some(JsonValue::Array(entries)) => {
            proof {
                lemma_items_view(entries@, entries@.len() as int);
            }
            let ghost ev = items_view(entries@, entries@.len() as int);
            let mut out: Vec<JsonValue> = Vec::new();
            let mut i: usize = 0;
            while i < entries.len()
                invariant
                    i <= entries@.len(),
                    ev == items_view(entries@, entries@.len() as int),
                    ev.len() == entries@.len(),
                    forall|j: int| 0 <= j < entries@.len() ==> #[trigger] ev[j] == json_view(entries@[j]),
                    out@.len() == i,
                    forall|j: int| 0 <= j < i ==> (#[trigger] out@[j])@ == compact_neighborhood(ev[j]),
                decreases entries@.len() - i,
            {
                assert(ev[i as int] == entries@[i as int]@);
                let mut entry = entries[i].copy();
                compact_entry(&mut entry);
                out.push(entry);
                i = i + 1;
            }
            proof {
                lemma_items_view(out@, out@.len() as int);
                assert(items_view(out@, out@.len() as int) =~= ev.map_values(|e: JsonView| compact_neighborhood(e)));
            }
            Some(JsonValue::Array(out))
        },
        _ => None,
    };
    match entries {
        Some(x) => value.insert("context_entries".to_owned(), x),
        None => {},
    }
    let ghost staged = match json_get(anchored, "context_entries"@) {
        Some(JsonView::Array(entries)) => set_member(
            anchored,
            "context_entries"@,
            JsonView::Array(entries.map_values(|e: JsonView| compact_neighborhood(e))),
        ),
        _ => anchored,
    };
    assert(value@ == staged);
    let freshness = match value.get("freshness") {
        Some(JsonValue::Object(fields)) => {
            proof {
                lemma_members_view(fields@, fields@.len() as int);
            }
            let kept = kept_freshness(fields);
            Some(JsonValue::Object(kept))
        },
        _ => None,
    };
    match freshness {
        Some(x) => value.insert("freshness".to_owned(), x),
        None => {},
    }
    let ghost fresh = match json_get(staged, "freshness"@) {
        Some(JsonView::Object(f)) => set_member(staged, "freshness"@, JsonView::Object(freshness_kept(f, f.len() as int))),
        _ => staged,
    };
    assert(value@ == fresh);
    let mut hashes = JsonValue::object();
    let mut shared = share(&value, &mut hashes);
    shared.insert("format".to_owned(), JsonValue::string("compact"));
    let shared_any = match &hashes {
        JsonValue::Object(h) => {
            proof {
                lemma_members_view(h@, h@.len() as int);
            }
            h.len() > 0
        },
        _ => false,
    };
    if shared_any {
        shared.insert("source_hashes".to_owned(), hashes);
    }
    shared
}

// ---------------------------------------------------------------------------
// Hashes are gathered once per file
// ---------------------------------------------------------------------------
/// No two members share a key.
pub open spec fn keys_distinct(m: Seq<(Seq<char>, JsonView)>) -> bool {
    forall|i: int, j: int| 0 <= i < j < m.len() ==> (#[trigger] m[i]).0 != (#[trigger] m[j]).0
}

proof fn lemma_absent_key(m: Seq<(Seq<char>, JsonView)>, key: Seq<char>, i: int)
    requires
        0 <= i,
        member_position(m, key, i) == -1,
    ensures
        forall|j: int| i <= j < m.len() ==> (#[trigger] m[j]).0 != key,
    decreases m.len() - i,
{
    if i < m.len() {
        lemma_absent_key(m, key, i + 1);
    }
}

/// Setting a member keeps the keys distinct.
pub proof fn lemma_insert_keeps_keys_distinct(m: Seq<(Seq<char>, JsonView)>, key: Seq<char>, value: JsonView)
    requires
        keys_distinct(m),
    ensures
        keys_distinct(member_insert(m, key, value)),
{
    lemma_member_position_bounds(m, key, 0);
    let p = member_position(m, key, 0);
    let r = member_insert(m, key, value);
    if p >= 0 {
        assert forall|i: int, j: int| 0 <= i < j < r.len() implies (#[trigger] r[i]).0 != (#[trigger] r[j]).0 by {
            assert(r[i].0 == m[i].0);
            assert(r[j].0 == m[j].0);
        }
    } else {
        lemma_absent_key(m, key, 0);
        let q = key_slot(m, key, 0);
        assert forall|i: int, j: int| 0 <= i < j < r.len() implies (#[trigger] r[i]).0 != (#[trigger] r[j]).0 by {
            if i < q {
                assert(r[i] == m[i]);
            } else if i > q {
                assert(r[i] == m[i - 1]);
            }
            if j < q {
                assert(r[j] == m[j]);
            } else if j > q {
                assert(r[j] == m[j - 1]);
            }
        }
    }
}

pub proof fn lemma_share_value_keeps_keys_distinct(v: JsonView, hashes: Seq<(Seq<char>, JsonView)>)
    requires
        keys_distinct(hashes),
    ensures
        keys_distinct(share_value(v, hashes).1),
    decreases v, 0int,
{
    match v {
        JsonView::Object(fields) => {
            if hashed_file(fields) {
                lemma_insert_keeps_keys_distinct(
                    hashes,
                    member_get(fields, "file_path"@)->Some_0->String_0,
                    member_get(fields, "source_hash"@)->Some_0,
                );
            }
            let own = if hashed_file(fields) {
                member_insert(
                    hashes,
                    member_get(fields, "file_path"@)->Some_0->String_0,
                    member_get(fields, "source_hash"@)->Some_0,
                )
            } else {
                hashes
            };
            lemma_share_members_keeps_keys_distinct(fields, fields.len() as int, hashed_file(fields), own);
        },
        JsonView::Array(items) => {
            lemma_share_items_keeps_keys_distinct(items, items.len() as int, hashes);
        },
        _ => {},
    }
}

pub proof fn lemma_share_members_keeps_keys_distinct(
    fields: Seq<(Seq<char>, JsonView)>,
    k: int,
    drop_hash: bool,
    hashes: Seq<(Seq<char>, JsonView)>,
)
    requires
        keys_distinct(hashes),
    ensures
        keys_distinct(share_members(fields, k, drop_hash, hashes).1),
    decreases fields, k,
{
    if 0 < k <= fields.len() {
        lemma_share_members_keeps_keys_distinct(fields, k - 1, drop_hash, hashes);
        let h = share_members(fields, k - 1, drop_hash, hashes).1;
        if !(fields[k - 1].1 is Null || (drop_hash && fields[k - 1].0 == "source_hash"@)) {
            lemma_share_value_keeps_keys_distinct(fields[k - 1].1, h);
        }
    }
}

pub proof fn lemma_share_items_keeps_keys_distinct(items: Seq<JsonView>, k: int, hashes: Seq<(Seq<char>, JsonView)>)
    requires
        keys_distinct(hashes),
    ensures
        keys_distinct(share_items(items, k, hashes).1),
    decreases items, k,
{
    if 0 < k <= items.len() {
        lemma_share_items_keeps_keys_distinct(items, k - 1, hashes);
        let h = share_items(items, k - 1, hashes).1;
        lemma_share_value_keeps_keys_distinct(items[k - 1], h);
    }
}

// ---------------------------------------------------------------------------
// Anchors are written once
// ---------------------------------------------------------------------------
/// Removing a key from members with distinct keys leaves no member of that
/// key.
pub proof fn lemma_remove_leaves_no_member(m: Seq<(Seq<char>, JsonView)>, key: Seq<char>)
    requires
        keys_distinct(m),
    ensures
        member_get(member_remove(m, key), key) is None,
{
    lemma_member_position_bounds(m, key, 0);
    let p = member_position(m, key, 0);
    let r = member_remove(m, key);
    if p >= 0 {
        assert forall|j: int| 0 <= j < r.len() implies (#[trigger] r[j]).0 != key by {
            if j < p {
                assert(r[j] == m[j]);
            } else {
                assert(r[j] == m[j + 1]);
            }
        }
    } else {
        lemma_absent_key(m, key, 0);
    }
    lemma_no_member(r, key, 0);
}

proof fn lemma_no_member(m: Seq<(Seq<char>, JsonView)>, key: Seq<char>, i: int)
    requires
        0 <= i,
        forall|j: int| i <= j < m.len() ==> (#[trigger] m[j]).0 != key,
    ensures
        member_position(m, key, i) == -1,
    decreases m.len() - i,
{
    if i < m.len() {
        lemma_no_member(m, key, i + 1);
    }
}

} // verus!
