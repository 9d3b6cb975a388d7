//! JSON text of the values that results and cursors carry.
use vstd::prelude::*;

use crate::service::cursor::signed_decimal;
use crate::text::{append_chars, chars_equal, chars_lt, chars_of, decimal, decimal_chars, seq_lt, str_eq, string_from_chars};

verus! {

/// The lowercase hexadecimal digit of a value below 16.
pub open spec fn lower_hex_digit(v: nat) -> char {
    if v < 10 {
        ((48 + v) as u8) as char
    } else {
        ((87 + v) as u8) as char
    }
}

/// How one character appears inside a JSON string: quote, backslash and
/// control characters escaped (`\b \t \n \f \r`, else `\u00XX`), everything
/// else as it is.
pub open spec fn json_escape_char(c: char) -> Seq<char> {
    if c == '"' {
        seq!['\\', '"']
    } else if c == '\\' {
        seq!['\\', '\\']
    } else if c == '\u{8}' {
        seq!['\\', 'b']
    } else if c == '\t' {
        seq!['\\', 't']
    } else if c == '\n' {
        seq!['\\', 'n']
    } else if c == '\u{c}' {
        seq!['\\', 'f']
    } else if c == '\r' {
        seq!['\\', 'r']
    } else if (c as u32) < 0x20 {
        seq!['\\', 'u', '0', '0', lower_hex_digit((c as u32 / 16) as nat), lower_hex_digit((c as u32 % 16) as nat)]
    } else {
        seq![c]
    }
}

/// The escaped characters of a string, without the quotes.
pub open spec fn json_escaped(s: Seq<char>) -> Seq<char>
    decreases s.len(),
{
    if s.len() == 0 {
        Seq::empty()
    } else {
        json_escaped(s.drop_last()) + json_escape_char(s.last())
    }
}

/// The JSON text of a string: its escaped characters in double quotes.
pub open spec fn json_string_spec(s: Seq<char>) -> Seq<char> {
    seq!['"'] + json_escaped(s) + seq!['"']
}

/// Calls `serde_json::to_string` on a string slice, which writes the string
/// in double quotes with `"`, `\` and control characters escaped. Writing a
/// `str` cannot fail.
#[verifier::external_body]
pub(crate) fn json_string(s: &str) -> (r: String)
    ensures
        r@ == json_string_spec(s@),
{
    match serde_json::to_string(s) {
        Ok(text) => text,
        Err(_) => String::new(),
    }
}

// ---------------------------------------------------------------------------
// Values
// ---------------------------------------------------------------------------
/// A JSON number as it was parsed: a non-negative integer, a negative
/// integer, or another number kept as its canonical text.
#[derive(Debug)]
pub enum JsonNumber {
    PosInt(u64),
    NegInt(i64),
    Float(String),
}

/// A JSON value. Object members are held in key order, each key once.
#[derive(Debug)]
pub enum JsonValue {
    Null,
    Bool(bool),
    Number(JsonNumber),
    String(String),
    Array(Vec<JsonValue>),
    Object(Vec<(String, JsonValue)>),
}

/// The mathematical value of a [`JsonNumber`].
pub enum NumberView {
    PosInt(u64),
    NegInt(i64),
    Float(Seq<char>),
}

/// The mathematical value of a [`JsonValue`].
pub enum JsonView {
    Null,
    Bool(bool),
    Number(NumberView),
    String(Seq<char>),
    Array(Seq<JsonView>),
    Object(Seq<(Seq<char>, JsonView)>),
}

pub open spec fn number_view(n: JsonNumber) -> NumberView {
    match n {
        JsonNumber::PosInt(u) => NumberView::PosInt(u),
        JsonNumber::NegInt(i) => NumberView::NegInt(i),
        JsonNumber::Float(t) => NumberView::Float(t@),
    }
}

pub open spec fn json_view(v: JsonValue) -> JsonView
    decreases v, 0int,
{
    match v {
        JsonValue::Null => JsonView::Null,
        JsonValue::Bool(b) => JsonView::Bool(b),
        JsonValue::Number(n) => JsonView::Number(number_view(n)),
        JsonValue::String(s) => JsonView::String(s@),
        JsonValue::Array(items) => JsonView::Array(items_view(items@, items@.len() as int)),
        JsonValue::Object(fields) => JsonView::Object(members_view(fields@, fields@.len() as int)),
    }
}

/// Views of the first `k` items.
pub open spec fn items_view(items: Seq<JsonValue>, k: int) -> Seq<JsonView>
    decreases items, k,
{
    if k <= 0 || k > items.len() {
        Seq::empty()
    } else {
        items_view(items, k - 1).push(json_view(items[k - 1]))
    }
}

/// Views of the first `k` members.
pub open spec fn members_view(fields: Seq<(String, JsonValue)>, k: int) -> Seq<(Seq<char>, JsonView)>
    decreases fields, k,
{
    if k <= 0 || k > fields.len() {
        Seq::empty()
    } else {
        members_view(fields, k - 1).push((fields[k - 1].0@, json_view(fields[k - 1].1)))
    }
}

impl View for JsonValue {
    type V = JsonView;

    open spec fn view(&self) -> JsonView {
        json_view(*self)
    }
}

pub proof fn lemma_items_view(items: Seq<JsonValue>, k: int)
    requires
        0 <= k <= items.len(),
    ensures
        items_view(items, k).len() == k,
        forall|i: int| 0 <= i < k ==> #[trigger] items_view(items, k)[i] == json_view(items[i]),
    decreases k,
{
    if k > 0 {
        lemma_items_view(items, k - 1);
    }
}

pub proof fn lemma_members_view(fields: Seq<(String, JsonValue)>, k: int)
    requires
        0 <= k <= fields.len(),
    ensures
        members_view(fields, k).len() == k,
        forall|i: int|
            0 <= i < k ==> #[trigger] members_view(fields, k)[i] == (fields[i].0@, json_view(fields[i].1)),
    decreases k,
{
    if k > 0 {
        lemma_members_view(fields, k - 1);
    }
}

/// The JSON text of a number.
pub open spec fn number_text(n: NumberView) -> Seq<char> {
    match n {
        NumberView::PosInt(u) => decimal(u as nat),
        NumberView::NegInt(i) => signed_decimal(i as int),
        NumberView::Float(t) => t,
    }
}

/// The compact JSON text of a value (no whitespace between tokens).
pub open spec fn json_text(v: JsonView) -> Seq<char>
    decreases v, 0int,
{
    match v {
        JsonView::Null => "null"@,
        JsonView::Bool(b) => if b {
            "true"@
        } else {
            "false"@
        },
        JsonView::Number(n) => number_text(n),
        JsonView::String(s) => json_string_spec(s),
        JsonView::Array(items) => seq!['['] + items_text(items, items.len() as int) + seq![']'],
        JsonView::Object(fields) => seq!['{'] + members_text(fields, fields.len() as int) + seq!['}'],
    }
}

/// The first `k` items, comma-separated.
pub open spec fn items_text(items: Seq<JsonView>, k: int) -> Seq<char>
    decreases items, k,
{
    if k <= 0 || k > items.len() {
        Seq::empty()
    } else if k == 1 {
        json_text(items[0])
    } else {
        items_text(items, k - 1) + seq![','] + json_text(items[k - 1])
    }
}

/// The first `k` members, `"key":value`, comma-separated.
pub open spec fn members_text(fields: Seq<(Seq<char>, JsonView)>, k: int) -> Seq<char>
    decreases fields, k,
{
    if k <= 0 || k > fields.len() {
        Seq::empty()
    } else if k == 1 {
        json_string_spec(fields[0].0) + seq![':'] + json_text(fields[0].1)
    } else {
        members_text(fields, k - 1) + seq![','] + json_string_spec(fields[k - 1].0) + seq![':']
            + json_text(fields[k - 1].1)
    }
}

/// Appends the JSON text of a number.
fn write_number(n: &JsonNumber, out: &mut Vec<char>)
    ensures
        final(out)@ == old(out)@ + number_text(number_view(*n)),
{
    match n {
        JsonNumber::PosInt(u) => append_chars(out, decimal_chars(*u).as_slice()),
        JsonNumber::NegInt(i) => {
            if *i < 0 {
                let magnitude: u64 = (-(*i as i128)) as u64;
                let ghost before = out@;
                out.push('-');
                append_chars(out, decimal_chars(magnitude).as_slice());
                assert(out@ =~= before + (seq!['-'] + decimal(magnitude as nat)));
            } else {
                append_chars(out, decimal_chars(*i as u64).as_slice());
            }
        },
        JsonNumber::Float(t) => append_chars(out, chars_of(t.as_str()).as_slice()),
    }
}

/// Appends the JSON text of a value.
fn write_json(v: &JsonValue, out: &mut Vec<char>)
    ensures
        final(out)@ == old(out)@ + json_text(v@),
    decreases *v,
{
    match v {
        JsonValue::Null => append_chars(out, chars_of("null").as_slice()),
        JsonValue::Bool(b) => if *b {
            append_chars(out, chars_of("true").as_slice())
        } else {
            append_chars(out, chars_of("false").as_slice())
        },
        JsonValue::Number(n) => write_number(n, out),
        JsonValue::String(s) => append_chars(out, chars_of(json_string(s.as_str()).as_str()).as_slice()),
        JsonValue::Array(items) => {
            let ghost start = out@;
            let ghost iv = items_view(items@, items@.len() as int);
            proof {
                lemma_items_view(items@, items@.len() as int);
            }
            out.push('[');
            let mut i: usize = 0;
            while i < items.len()
                invariant
                    i <= items@.len(),
                    *v == JsonValue::Array(*items),
                    iv == items_view(items@, items@.len() as int),
                    iv.len() == items@.len(),
                    forall|j: int| 0 <= j < items@.len() ==> #[trigger] iv[j] == json_view(items@[j]),
                    out@ == start + seq!['['] + items_text(iv, i as int),
                decreases items@.len() - i,
            {
                if i > 0 {
                    out.push(',');
                }
                proof {
                    assert(decreases_to!(*v => (*v)->Array_0));
                    assert(decreases_to!(*items => items@));
                    assert(decreases_to!(items@ => items@[i as int]));
                }
                write_json(&items[i], out);
                assert(iv[i as int] == items@[i as int]@);
                assert(out@ =~= start + seq!['['] + items_text(iv, i + 1));
                i = i + 1;
            }
            out.push(']');
        },
        JsonValue::Object(fields) => {
            let ghost start = out@;
            let ghost mv = members_view(fields@, fields@.len() as int);
            proof {
                lemma_members_view(fields@, fields@.len() as int);
            }
            out.push('{');
            let mut i: usize = 0;
            while i < fields.len()
                invariant
                    i <= fields@.len(),
                    *v == JsonValue::Object(*fields),
                    mv == members_view(fields@, fields@.len() as int),
                    mv.len() == fields@.len(),
                    forall|j: int|
                        0 <= j < fields@.len() ==> #[trigger] mv[j] == (fields@[j].0@, json_view(
                            fields@[j].1,
                        )),
                    out@ == start + seq!['{'] + members_text(mv, i as int),
                decreases fields@.len() - i,
            {
                if i > 0 {
                    out.push(',');
                }
                append_chars(out, chars_of(json_string(fields[i].0.as_str()).as_str()).as_slice());
                out.push(':');
                proof {
                    assert(decreases_to!(*v => (*v)->Object_0));
                    assert(decreases_to!(*fields => fields@));
                    assert(decreases_to!(fields@ => fields@[i as int]));
                    assert(decreases_to!(fields@[i as int] => fields@[i as int].1));
                }
                write_json(&fields[i].1, out);
                assert(mv[i as int] == (fields@[i as int].0@, fields@[i as int].1@));
                assert(out@ =~= start + seq!['{'] + members_text(mv, i + 1));
                i = i + 1;
            }
            out.push('}');
        },
    }
}

impl JsonValue {
    /// The compact JSON text of the value (`serde_json::to_string`).
    pub fn to_json_string(&self) -> (r: String)
        ensures
            r@ == json_text(self@),
    {
        let mut out: Vec<char> = Vec::new();
        write_json(self, &mut out);
        assert(out@ =~= json_text(self@));
        string_from_chars(out.as_slice())
    }
}

// ---------------------------------------------------------------------------
// Members
// ---------------------------------------------------------------------------

/// Position of the first member named `key` at or after `i`, or -1.
pub open spec fn member_position(m: Seq<(Seq<char>, JsonView)>, key: Seq<char>, i: int) -> int
    decreases m.len() - i,
{
    if i < 0 || i >= m.len() {
        -1
    } else if m[i].0 == key {
        i
    } else {
        member_position(m, key, i + 1)
    }
}

/// The value of the first member named `key`.
pub open spec fn member_get(m: Seq<(Seq<char>, JsonView)>, key: Seq<char>) -> Option<JsonView> {
    let p = member_position(m, key, 0);
    if p >= 0 {
        Some(m[p].1)
    } else {
        None
    }
}

/// The member named `key` of an object; nothing for other values.
pub open spec fn json_get(v: JsonView, key: Seq<char>) -> Option<JsonView> {
    match v {
        JsonView::Object(m) => member_get(m, key),
        _ => None,
    }
}

/// Position before the first member at or after `i` whose key `key`
/// precedes, or the end.
pub open spec fn key_slot(m: Seq<(Seq<char>, JsonView)>, key: Seq<char>, i: int) -> int
    decreases m.len() - i,
{
    if i < 0 || i >= m.len() {
        m.len() as int
    } else if seq_lt(key, m[i].0) {
        i
    } else {
        key_slot(m, key, i + 1)
    }
}

/// Members with `key` set to `value`: replaced in place when present, else
/// inserted in key order (`Map::insert` on a key-ordered map).
pub open spec fn member_insert(m: Seq<(Seq<char>, JsonView)>, key: Seq<char>, value: JsonView) -> Seq<
    (Seq<char>, JsonView),
> {
    let p = member_position(m, key, 0);
    if p >= 0 {
        m.update(p, (key, value))
    } else {
        let q = key_slot(m, key, 0);
        m.take(q) + seq![(key, value)] + m.skip(q)
    }
}

pub proof fn lemma_member_position_bounds(m: Seq<(Seq<char>, JsonView)>, key: Seq<char>, i: int)
    requires
        0 <= i,
    ensures
        member_position(m, key, i) == -1 || (i <= member_position(m, key, i) < m.len() && m[member_position(
            m,
            key,
            i,
        )].0 == key),
        i <= m.len() ==> i <= key_slot(m, key, i) <= m.len(),
    decreases m.len() - i,
{
    if i < m.len() {
        lemma_member_position_bounds(m, key, i + 1);
    }
}

/// Copies a number.
fn copy_number(n: &JsonNumber) -> (r: JsonNumber)
    ensures
        number_view(r) == number_view(*n),
{
    match n {
        JsonNumber::PosInt(u) => JsonNumber::PosInt(*u),
        JsonNumber::NegInt(i) => JsonNumber::NegInt(*i),
        JsonNumber::Float(t) => JsonNumber::Float(t.clone()),
    }
}

/// A deep copy of a value.
fn copy_json(v: &JsonValue) -> (r: JsonValue)
    ensures
        r@ == v@,
    decreases *v,
{
    match v {
        JsonValue::Null => JsonValue::Null,
        JsonValue::Bool(b) => JsonValue::Bool(*b),
        JsonValue::Number(n) => JsonValue::Number(copy_number(n)),
        JsonValue::String(s) => JsonValue::String(s.clone()),
        JsonValue::Array(items) => {
            let mut out: Vec<JsonValue> = Vec::new();
            let mut i: usize = 0;
            proof {
                lemma_items_view(items@, items@.len() as int);
            }
            while i < items.len()
                invariant
                    i <= items@.len(),
                    *v == JsonValue::Array(*items),
                    items_view(out@, out@.len() as int) == items_view(items@, i as int),
                    out@.len() == i,
                decreases items@.len() - i,
            {
                proof {
                    assert(decreases_to!(*v => (*v)->Array_0));
                    assert(decreases_to!(*items => items@));
                    assert(decreases_to!(items@ => items@[i as int]));
                }
                let c = copy_json(&items[i]);
                let ghost before = out@;
                out.push(c);
                proof {
                    assert(out@.len() == i + 1);
                    assert(out@[i as int] == c);
                    assert(out@.take(i as int) =~= before);
                    lemma_items_view_prefix(out@, i as int);
                }
                i = i + 1;
            }
            JsonValue::Array(out)
        },
        JsonValue::Object(fields) => {
            let mut out: Vec<(String, JsonValue)> = Vec::new();
            let mut i: usize = 0;
            while i < fields.len()
                invariant
                    i <= fields@.len(),
                    *v == JsonValue::Object(*fields),
                    members_view(out@, out@.len() as int) == members_view(fields@, i as int),
                    out@.len() == i,
                decreases fields@.len() - i,
            {
                proof {
                    assert(decreases_to!(*v => (*v)->Object_0));
                    assert(decreases_to!(*fields => fields@));
                    assert(decreases_to!(fields@ => fields@[i as int]));
                    assert(decreases_to!(fields@[i as int] => fields@[i as int].1));
                }
                let c = copy_json(&fields[i].1);
                let k = fields[i].0.clone();
                let ghost before = out@;
                out.push((k, c));
                proof {
                    assert(out@.take(i as int) =~= before);
                    lemma_members_view_prefix(out@, i as int);
                }
                i = i + 1;
            }
            JsonValue::Object(out)
        },
    }
}

proof fn lemma_items_view_prefix(items: Seq<JsonValue>, k: int)
    requires
        0 <= k <= items.len(),
    ensures
        items_view(items, k) == items_view(items.take(k), k),
    decreases k,
{
    if k > 0 {
        lemma_items_view_prefix(items, k - 1);
        lemma_items_view_prefix(items.take(k), k - 1);
        assert(items.take(k).take(k - 1) =~= items.take(k - 1));
    }
}

proof fn lemma_members_view_prefix(fields: Seq<(String, JsonValue)>, k: int)
    requires
        0 <= k <= fields.len(),
    ensures
        members_view(fields, k) == members_view(fields.take(k), k),
    decreases k,
{
    if k > 0 {
        lemma_members_view_prefix(fields, k - 1);
        lemma_members_view_prefix(fields.take(k), k - 1);
        assert(fields.take(k).take(k - 1) =~= fields.take(k - 1));
    }
}

impl JsonValue {
    /// A deep copy of the value.
    pub fn copy(&self) -> (r: JsonValue)
        ensures
            r@ == self@,
    {
        copy_json(self)
    }

    /// The member named `key` when the value is an object (`Value::get`).
    pub fn get(&self, key: &str) -> (r: Option<&JsonValue>)
        ensures
            match r {
                Some(x) => json_get(self@, key@) == Some(x@),
                None => json_get(self@, key@) is None,
            },
    {
        match self {
            JsonValue::Object(fields) => {
                let k = chars_of(key);
                let ghost m = members_view(fields@, fields@.len() as int);
                proof {
                    lemma_members_view(fields@, fields@.len() as int);
                }
                let mut i: usize = 0;
                while i < fields.len()
                    invariant
                        i <= fields@.len(),
                        k@ == key@,
                        m == members_view(fields@, fields@.len() as int),
                        m.len() == fields@.len(),
                        forall|j: int|
                            0 <= j < fields@.len() ==> #[trigger] m[j] == (fields@[j].0@, json_view(
                                fields@[j].1,
                            )),
                        member_position(m, key@, 0) == member_position(m, key@, i as int),
                        *self == JsonValue::Object(*fields),
                        self@ == JsonView::Object(m),
                    decreases fields@.len() - i,
                {
                    if chars_equal(chars_of(fields[i].0.as_str()).as_slice(), k.as_slice()) {
                        assert(m[i as int].0 == key@);
                        assert(member_position(m, key@, i as int) == i as int);
                        return Some(&fields[i].1);
                    }
                    assert(m[i as int].0 != key@);
                    i = i + 1;
                }
                None
            },
            _ => None,
        }
    }

    /// The text of a string value (`Value::as_str`).
    pub fn as_str(&self) -> (r: Option<&str>)
        ensures
            match r {
                Some(s) => self@ == JsonView::String(s@),
                None => !(self@ is String),
            },
    {
        match self {
            JsonValue::String(s) => Some(s.as_str()),
            _ => None,
        }
    }

    /// The value of a non-negative integer (`Value::as_u64`).
    pub fn as_u64(&self) -> (r: Option<u64>)
        ensures
            match r {
                Some(u) => self@ == JsonView::Number(NumberView::PosInt(u)),
                None => !(self@ matches JsonView::Number(NumberView::PosInt(_))),
            },
    {
        match self {
            JsonValue::Number(JsonNumber::PosInt(u)) => Some(*u),
            _ => None,
        }
    }

    /// Whether the value is an object.
    pub fn is_object(&self) -> (r: bool)
        ensures
            r == self@ is Object,
    {
        match self {
            JsonValue::Object(_) => true,
            _ => false,
        }
    }

    /// Whether the value is null.
    pub fn is_null(&self) -> (r: bool)
        ensures
            r == self@ is Null,
    {
        match self {
            JsonValue::Null => true,
            _ => false,
        }
    }

    /// An empty object.
    pub fn object() -> (r: JsonValue)
        ensures
            r@ == JsonView::Object(Seq::empty()),
    {
        let fields: Vec<(String, JsonValue)> = Vec::new();
        let r = JsonValue::Object(fields);
        assert(members_view(fields@, 0) =~= Seq::<(Seq<char>, JsonView)>::empty());
        r
    }

    /// A string value.
    pub fn string(s: &str) -> (r: JsonValue)
        ensures
            r@ == JsonView::String(s@),
    {
        JsonValue::String(s.to_owned())
    }

    /// Sets member `key` of an object to `value` (`Map::insert`).
    pub fn insert(&mut self, key: String, value: JsonValue)
        requires
            old(self)@ is Object,
        ensures
            final(self)@ == JsonView::Object(member_insert(old(self)@->Object_0, key@, value@)),
    {
        let ghost m = old(self)@->Object_0;
        match self {
            JsonValue::Object(fields) => {
                proof {
                    lemma_members_view(fields@, fields@.len() as int);
                    lemma_member_position_bounds(m, key@, 0);
                }
                let k = chars_of(key.as_str());
                let mut i: usize = 0;
                while i < fields.len() && !chars_equal(chars_of(fields[i].0.as_str()).as_slice(), k.as_slice())
                    invariant
                        i <= fields@.len(),
                        k@ == key@,
                        m == members_view(fields@, fields@.len() as int),
                        m.len() == fields@.len(),
                        forall|j: int|
                            0 <= j < fields@.len() ==> #[trigger] m[j] == (fields@[j].0@, json_view(
                                fields@[j].1,
                            )),
                        member_position(m, key@, 0) == member_position(m, key@, i as int),
                    decreases fields@.len() - i,
                {
                    assert(m[i as int].0 != key@);
                    i = i + 1;
                }
                let ghost old_fields = fields@;
                if i < fields.len() {
                    assert(m[i as int].0 == key@);
                    let ghost vv = value@;
                    fields.set(i, (key, value));
                    proof {
                        lemma_members_view(fields@, fields@.len() as int);
                        assert(members_view(fields@, fields@.len() as int) =~= m.update(i as int, (key@, vv)));
                    }
                } else {
                    let mut q: usize = 0;
                    while q < fields.len() && !chars_lt(k.as_slice(), chars_of(fields[q].0.as_str()).as_slice())
                        invariant
                            q <= fields@.len(),
                            k@ == key@,
                            fields@ == old_fields,
                            m == members_view(fields@, fields@.len() as int),
                            m.len() == fields@.len(),
                            forall|j: int|
                                0 <= j < fields@.len() ==> #[trigger] m[j] == (fields@[j].0@, json_view(
                                    fields@[j].1,
                                )),
                            key_slot(m, key@, 0) == key_slot(m, key@, q as int),
                        decreases fields@.len() - q,
                    {
                        q = q + 1;
                    }
                    proof {
                        lemma_member_position_bounds(m, key@, q as int);
                    }
                    let ghost vv = value@;
                    fields.insert(q, (key, value));
                    proof {
                        lemma_members_view(fields@, fields@.len() as int);
                        assert(members_view(fields@, fields@.len() as int) =~= m.take(q as int) + seq![
                            (key@, vv),
                        ] + m.skip(q as int));
                    }
                }
            },
            _ => {},
        }
    }
}

// ---------------------------------------------------------------------------
// Construction
// ---------------------------------------------------------------------------
/// An object value from members already in key order.
pub open spec fn object_of(members: Seq<(Seq<char>, JsonView)>) -> JsonView {
    JsonView::Object(members)
}

/// The object of members, in the order given.
pub fn object_from(members: Vec<(String, JsonValue)>) -> (r: JsonValue)
    ensures
        r@ == JsonView::Object(members_view(members@, members@.len() as int)),
{
    JsonValue::Object(members)
}

/// A one-member object.
pub fn object1(k1: &str, v1: JsonValue) -> (r: JsonValue)
    ensures
        r@ == object_of(seq![(k1@, v1@)]),
{
    let members = vec![(k1.to_owned(), v1)];
    proof {
        lemma_members_view(members@, 1);
    }
    let r = object_from(members);
    assert(members_view(members@, 1) =~= seq![(k1@, v1@)]);
    r
}

/// A two-member object, members in the order given.
pub fn object2(k1: &str, v1: JsonValue, k2: &str, v2: JsonValue) -> (r: JsonValue)
    ensures
        r@ == object_of(seq![(k1@, v1@), (k2@, v2@)]),
{
    let ghost w1 = v1@;
    let ghost w2 = v2@;
    let members = vec![(k1.to_owned(), v1), (k2.to_owned(), v2)];
    proof {
        lemma_members_view(members@, 2);
    }
    let r = object_from(members);
    assert(members_view(members@, 2) =~= seq![(k1@, w1), (k2@, w2)]);
    r
}

/// A three-member object, members in the order given.
pub fn object3(k1: &str, v1: JsonValue, k2: &str, v2: JsonValue, k3: &str, v3: JsonValue) -> (r: JsonValue)
    ensures
        r@ == object_of(seq![(k1@, v1@), (k2@, v2@), (k3@, v3@)]),
{
    let ghost w1 = v1@;
    let ghost w2 = v2@;
    let ghost w3 = v3@;
    let members = vec![(k1.to_owned(), v1), (k2.to_owned(), v2), (k3.to_owned(), v3)];
    proof {
        lemma_members_view(members@, 3);
    }
    let r = object_from(members);
    assert(members_view(members@, 3) =~= seq![(k1@, w1), (k2@, w2), (k3@, w3)]);
    r
}

/// An array of the given values.
pub fn array_of(items: Vec<JsonValue>) -> (r: JsonValue)
    ensures
        r@ == JsonView::Array(items_view(items@, items@.len() as int)),
{
    JsonValue::Array(items)
}

/// A four-member object, members in the order given.
pub fn object4(k1: &str, v1: JsonValue, k2: &str, v2: JsonValue, k3: &str, v3: JsonValue, k4: &str, v4: JsonValue) -> (r:
    JsonValue)
    ensures
        r@ == object_of(seq![(k1@, v1@), (k2@, v2@), (k3@, v3@), (k4@, v4@)]),
{
    let ghost w = seq![(k1@, v1@), (k2@, v2@), (k3@, v3@), (k4@, v4@)];
    let members = vec![(k1.to_owned(), v1), (k2.to_owned(), v2), (k3.to_owned(), v3), (k4.to_owned(), v4)];
    proof {
        lemma_members_view(members@, 4);
    }
    let r = object_from(members);
    assert(members_view(members@, 4) =~= w);
    r
}

/// A five-member object, members in the order given.
pub fn object5(
    k1: &str,
    v1: JsonValue,
    k2: &str,
    v2: JsonValue,
    k3: &str,
    v3: JsonValue,
    k4: &str,
    v4: JsonValue,
    k5: &str,
    v5: JsonValue,
) -> (r: JsonValue)
    ensures
        r@ == object_of(seq![(k1@, v1@), (k2@, v2@), (k3@, v3@), (k4@, v4@), (k5@, v5@)]),
{
    let ghost w = seq![(k1@, v1@), (k2@, v2@), (k3@, v3@), (k4@, v4@), (k5@, v5@)];
    let members = vec![
        (k1.to_owned(), v1),
        (k2.to_owned(), v2),
        (k3.to_owned(), v3),
        (k4.to_owned(), v4),
        (k5.to_owned(), v5),
    ];
    proof {
        lemma_members_view(members@, 5);
    }
    let r = object_from(members);
    assert(members_view(members@, 5) =~= w);
    r
}

/// A six-member object, members in the order given.
pub fn object6(
    k1: &str,
    v1: JsonValue,
    k2: &str,
    v2: JsonValue,
    k3: &str,
    v3: JsonValue,
    k4: &str,
    v4: JsonValue,
    k5: &str,
    v5: JsonValue,
    k6: &str,
    v6: JsonValue,
) -> (r: JsonValue)
    ensures
        r@ == object_of(seq![(k1@, v1@), (k2@, v2@), (k3@, v3@), (k4@, v4@), (k5@, v5@), (k6@, v6@)]),
{
    let ghost w = seq![(k1@, v1@), (k2@, v2@), (k3@, v3@), (k4@, v4@), (k5@, v5@), (k6@, v6@)];
    let members = vec![
        (k1.to_owned(), v1),
        (k2.to_owned(), v2),
        (k3.to_owned(), v3),
        (k4.to_owned(), v4),
        (k5.to_owned(), v5),
        (k6.to_owned(), v6),
    ];
    proof {
        lemma_members_view(members@, 6);
    }
    let r = object_from(members);
    assert(members_view(members@, 6) =~= w);
    r
}

/// A seven-member object, members in the order given.
pub fn object7(
    k1: &str,
    v1: JsonValue,
    k2: &str,
    v2: JsonValue,
    k3: &str,
    v3: JsonValue,
    k4: &str,
    v4: JsonValue,
    k5: &str,
    v5: JsonValue,
    k6: &str,
    v6: JsonValue,
    k7: &str,
    v7: JsonValue,
) -> (r: JsonValue)
    ensures
        r@ == object_of(seq![(k1@, v1@), (k2@, v2@), (k3@, v3@), (k4@, v4@), (k5@, v5@), (k6@, v6@), (k7@, v7@)]),
{
    let ghost w = seq![(k1@, v1@), (k2@, v2@), (k3@, v3@), (k4@, v4@), (k5@, v5@), (k6@, v6@), (k7@, v7@)];
    let members = vec![
        (k1.to_owned(), v1),
        (k2.to_owned(), v2),
        (k3.to_owned(), v3),
        (k4.to_owned(), v4),
        (k5.to_owned(), v5),
        (k6.to_owned(), v6),
        (k7.to_owned(), v7),
    ];
    proof {
        lemma_members_view(members@, 7);
    }
    let r = object_from(members);
    assert(members_view(members@, 7) =~= w);
    r
}

/// A eight-member object, members in the order given.
pub fn object8(
    k1: &str,
    v1: JsonValue,
    k2: &str,
    v2: JsonValue,
    k3: &str,
    v3: JsonValue,
    k4: &str,
    v4: JsonValue,
    k5: &str,
    v5: JsonValue,
    k6: &str,
    v6: JsonValue,
    k7: &str,
    v7: JsonValue,
    k8: &str,
    v8: JsonValue,
) -> (r: JsonValue)
    ensures
        r@ == object_of(seq![(k1@, v1@), (k2@, v2@), (k3@, v3@), (k4@, v4@), (k5@, v5@), (k6@, v6@), (k7@, v7@), (k8@, v8@)]),
{
    let ghost w = seq![(k1@, v1@), (k2@, v2@), (k3@, v3@), (k4@, v4@), (k5@, v5@), (k6@, v6@), (k7@, v7@), (k8@, v8@)];
    let members = vec![
        (k1.to_owned(), v1),
        (k2.to_owned(), v2),
        (k3.to_owned(), v3),
        (k4.to_owned(), v4),
        (k5.to_owned(), v5),
        (k6.to_owned(), v6),
        (k7.to_owned(), v7),
        (k8.to_owned(), v8),
    ];
    proof {
        lemma_members_view(members@, 8);
    }
    let r = object_from(members);
    assert(members_view(members@, 8) =~= w);
    r
}

/// A nine-member object, members in the order given.
pub fn object9(
    k1: &str,
    v1: JsonValue,
    k2: &str,
    v2: JsonValue,
    k3: &str,
    v3: JsonValue,
    k4: &str,
    v4: JsonValue,
    k5: &str,
    v5: JsonValue,
    k6: &str,
    v6: JsonValue,
    k7: &str,
    v7: JsonValue,
    k8: &str,
    v8: JsonValue,
    k9: &str,
    v9: JsonValue,
) -> (r: JsonValue)
    ensures
        r@ == object_of(seq![(k1@, v1@), (k2@, v2@), (k3@, v3@), (k4@, v4@), (k5@, v5@), (k6@, v6@), (k7@, v7@), (k8@, v8@), (k9@, v9@)]),
{
    let ghost w = seq![(k1@, v1@), (k2@, v2@), (k3@, v3@), (k4@, v4@), (k5@, v5@), (k6@, v6@), (k7@, v7@), (k8@, v8@), (k9@, v9@)];
    let members = vec![
        (k1.to_owned(), v1),
        (k2.to_owned(), v2),
        (k3.to_owned(), v3),
        (k4.to_owned(), v4),
        (k5.to_owned(), v5),
        (k6.to_owned(), v6),
        (k7.to_owned(), v7),
        (k8.to_owned(), v8),
        (k9.to_owned(), v9),
    ];
    proof {
        lemma_members_view(members@, 9);
    }
    let r = object_from(members);
    assert(members_view(members@, 9) =~= w);
    r
}

/// A ten-member object, members in the order given.
pub fn object10(
    k1: &str,
    v1: JsonValue,
    k2: &str,
    v2: JsonValue,
    k3: &str,
    v3: JsonValue,
    k4: &str,
    v4: JsonValue,
    k5: &str,
    v5: JsonValue,
    k6: &str,
    v6: JsonValue,
    k7: &str,
    v7: JsonValue,
    k8: &str,
    v8: JsonValue,
    k9: &str,
    v9: JsonValue,
    k10: &str,
    v10: JsonValue,
) -> (r: JsonValue)
    ensures
        r@ == object_of(seq![(k1@, v1@), (k2@, v2@), (k3@, v3@), (k4@, v4@), (k5@, v5@), (k6@, v6@), (k7@, v7@), (k8@, v8@), (k9@, v9@), (k10@, v10@)]),
{
    let ghost w = seq![(k1@, v1@), (k2@, v2@), (k3@, v3@), (k4@, v4@), (k5@, v5@), (k6@, v6@), (k7@, v7@), (k8@, v8@), (k9@, v9@), (k10@, v10@)];
    let members = vec![
        (k1.to_owned(), v1),
        (k2.to_owned(), v2),
        (k3.to_owned(), v3),
        (k4.to_owned(), v4),
        (k5.to_owned(), v5),
        (k6.to_owned(), v6),
        (k7.to_owned(), v7),
        (k8.to_owned(), v8),
        (k9.to_owned(), v9),
        (k10.to_owned(), v10),
    ];
    proof {
        lemma_members_view(members@, 10);
    }
    let r = object_from(members);
    assert(members_view(members@, 10) =~= w);
    r
}

/// A one-item array.
pub fn array1(v: JsonValue) -> (r: JsonValue)
    ensures
        r@ == JsonView::Array(seq![v@]),
{
    let ghost w = v@;
    let items = vec![v];
    proof {
        lemma_items_view(items@, 1);
    }
    let r = array_of(items);
    assert(items_view(items@, 1) =~= seq![w]);
    r
}

/// Whether two numbers have the same value.
fn numbers_equal(a: &JsonNumber, b: &JsonNumber) -> (r: bool)
    ensures
        r == (number_view(*a) == number_view(*b)),
{
    match (a, b) {
        (JsonNumber::PosInt(x), JsonNumber::PosInt(y)) => *x == *y,
        (JsonNumber::NegInt(x), JsonNumber::NegInt(y)) => *x == *y,
        (JsonNumber::Float(x), JsonNumber::Float(y)) => str_eq(x.as_str(), y.as_str()),
        _ => false,
    }
}

/// Whether two values are equal (`Value == Value`): same kind, same
/// scalars, equal items in order, equal members in order.
pub fn json_equal(a: &JsonValue, b: &JsonValue) -> (r: bool)
    ensures
        r == (a@ == b@),
    decreases *a,
{
    match (a, b) {
        (JsonValue::Null, JsonValue::Null) => true,
        (JsonValue::Bool(x), JsonValue::Bool(y)) => *x == *y,
        (JsonValue::Number(x), JsonValue::Number(y)) => numbers_equal(x, y),
        (JsonValue::String(x), JsonValue::String(y)) => str_eq(x.as_str(), y.as_str()),
        (JsonValue::Array(xs), JsonValue::Array(ys)) => {
            proof {
                lemma_items_view(xs@, xs@.len() as int);
                lemma_items_view(ys@, ys@.len() as int);
            }
            let ghost xv = items_view(xs@, xs@.len() as int);
            let ghost yv = items_view(ys@, ys@.len() as int);
            if xs.len() != ys.len() {
                assert(xv.len() != yv.len());
                return false;
            }
            let mut i: usize = 0;
            while i < xs.len()
                invariant
                    i <= xs@.len(),
                    xs@.len() == ys@.len(),
                    *a == JsonValue::Array(*xs),
                    a@ == JsonView::Array(xv),
                    b@ == JsonView::Array(yv),
                    xv == items_view(xs@, xs@.len() as int),
                    yv == items_view(ys@, ys@.len() as int),
                    xv.len() == xs@.len(),
                    yv.len() == ys@.len(),
                    forall|j: int| 0 <= j < xs@.len() ==> #[trigger] xv[j] == json_view(xs@[j]),
                    forall|j: int| 0 <= j < ys@.len() ==> #[trigger] yv[j] == json_view(ys@[j]),
                    forall|j: int| 0 <= j < i ==> xv[j] == yv[j],
                decreases xs@.len() - i,
            {
                proof {
                    assert(decreases_to!(*a => (*a)->Array_0));
                    assert(decreases_to!(*xs => xs@));
                    assert(decreases_to!(xs@ => xs@[i as int]));
                }
                if !json_equal(&xs[i], &ys[i]) {
                    assert(xv[i as int] != yv[i as int]);
                    return false;
                }
                i = i + 1;
            }
            assert(xv =~= yv);
            true
        },
        (JsonValue::Object(xs), JsonValue::Object(ys)) => {
            proof {
                lemma_members_view(xs@, xs@.len() as int);
                lemma_members_view(ys@, ys@.len() as int);
            }
            let ghost xv = members_view(xs@, xs@.len() as int);
            let ghost yv = members_view(ys@, ys@.len() as int);
            if xs.len() != ys.len() {
                assert(xv.len() != yv.len());
                return false;
            }
            let mut i: usize = 0;
            while i < xs.len()
                invariant
                    i <= xs@.len(),
                    xs@.len() == ys@.len(),
                    *a == JsonValue::Object(*xs),
                    a@ == JsonView::Object(xv),
                    b@ == JsonView::Object(yv),
                    xv == members_view(xs@, xs@.len() as int),
                    yv == members_view(ys@, ys@.len() as int),
                    xv.len() == xs@.len(),
                    yv.len() == ys@.len(),
                    forall|j: int|
                        0 <= j < xs@.len() ==> #[trigger] xv[j] == (xs@[j].0@, json_view(xs@[j].1)),
                    forall|j: int|
                        0 <= j < ys@.len() ==> #[trigger] yv[j] == (ys@[j].0@, json_view(ys@[j].1)),
                    forall|j: int| 0 <= j < i ==> xv[j] == yv[j],
                decreases xs@.len() - i,
            {
                proof {
                    assert(decreases_to!(*a => (*a)->Object_0));
                    assert(decreases_to!(*xs => xs@));
                    assert(decreases_to!(xs@ => xs@[i as int]));
                    assert(decreases_to!(xs@[i as int] => xs@[i as int].1));
                }
                assert(xv[i as int] == (xs@[i as int].0@, xs@[i as int].1@));
                assert(yv[i as int] == (ys@[i as int].0@, ys@[i as int].1@));
                if !str_eq(xs[i].0.as_str(), ys[i].0.as_str()) {
                    return false;
                }
                if !json_equal(&xs[i].1, &ys[i].1) {
                    return false;
                }
                i = i + 1;
            }
            assert(xv =~= yv);
            true
        },
        _ => false,
    }
}

/// Members without the first one named `key` (`Map::remove`).
pub open spec fn member_remove(m: Seq<(Seq<char>, JsonView)>, key: Seq<char>) -> Seq<(Seq<char>, JsonView)> {
    let p = member_position(m, key, 0);
    if p >= 0 {
        m.remove(p)
    } else {
        m
    }
}

impl JsonValue {
    /// Removes member `key` of an object (`Map::remove`).
    pub fn remove(&mut self, key: &str)
        requires
            old(self)@ is Object,
        ensures
            final(self)@ == JsonView::Object(member_remove(old(self)@->Object_0, key@)),
    {
        let ghost m = old(self)@->Object_0;
        match self {
            JsonValue::Object(fields) => {
                proof {
                    lemma_members_view(fields@, fields@.len() as int);
                    lemma_member_position_bounds(m, key@, 0);
                }
                let k = chars_of(key);
                let mut i: usize = 0;
                while i < fields.len() && !chars_equal(chars_of(fields[i].0.as_str()).as_slice(), k.as_slice())
                    invariant
                        i <= fields@.len(),
                        k@ == key@,
                        m == members_view(fields@, fields@.len() as int),
                        m.len() == fields@.len(),
                        forall|j: int|
                            0 <= j < fields@.len() ==> #[trigger] m[j] == (fields@[j].0@, json_view(fields@[j].1)),
                        member_position(m, key@, 0) == member_position(m, key@, i as int),
                    decreases fields@.len() - i,
                {
                    assert(m[i as int].0 != key@);
                    i = i + 1;
                }
                if i < fields.len() {
                    assert(m[i as int].0 == key@);
                    let ghost before = fields@;
                    fields.remove(i);
                    proof {
                        lemma_members_view(fields@, fields@.len() as int);
                        assert(fields@ =~= before.remove(i as int));
                        assert(members_view(fields@, fields@.len() as int) =~= m.remove(i as int));
                    }
                }
            },
            _ => {},
        }
    }
}

} // verus!
