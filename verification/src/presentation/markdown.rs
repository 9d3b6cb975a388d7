//! Deterministic Markdown projection of tool results.
//!
//! The renderer changes presentation only: every value remains present,
//! arrays retain their order, and repeated flat facts share one table header.
use vstd::prelude::*;

use crate::json::{
    items_view, json_string, json_string_spec, json_text, json_view, lemma_items_view, lemma_members_view, member_get, member_insert,
    members_view, JsonValue, JsonView,
};
use crate::text::{
    append_chars, ascii_lowercase_chars, char_is_alphanumeric, char_is_whitespace, chars_equal, chars_of,
    copy_range, decimal, decimal_chars, ends_with, ends_with_chars, find_char, str_eq, trim_end_char, trim_end_char_chars, string_from_chars, find_either, find_either_from, find_pair, find_pair_from, lemma_find_char_from_bounds,
    unicode_alphanumeric, unicode_whitespace,
};

verus! {

// ---------------------------------------------------------------------------
// Text pieces
// ---------------------------------------------------------------------------
/// `n` copies of `c`.
pub open spec fn repeat(c: char, n: nat) -> Seq<char> {
    Seq::new(n, |_i: int| c)
}

/// Length of the run of backticks that ends at position `j`.
pub open spec fn trailing_ticks(s: Seq<char>, j: int) -> nat
    decreases j,
{
    if j <= 0 || j > s.len() {
        0
    } else if s[j - 1] == '`' {
        trailing_ticks(s, j - 1) + 1
    } else {
        0
    }
}

/// Length of the longest run of backticks in the first `j` characters.
pub open spec fn longest_ticks(s: Seq<char>, j: int) -> nat
    decreases j,
{
    if j <= 0 || j > s.len() {
        0
    } else {
        let before = longest_ticks(s, j - 1);
        let here = trailing_ticks(s, j);
        if before >= here {
            before
        } else {
            here
        }
    }
}

/// Length of the longest run of backticks in `s`.
pub open spec fn longest_backtick_run(s: Seq<char>) -> nat {
    longest_ticks(s, s.len() as int)
}

/// `n + 1`, saturating at `usize::MAX`.
pub open spec fn saturating_inc(n: nat) -> nat {
    if n < usize::MAX {
        n + 1
    } else {
        n
    }
}

/// Which characters an escaping pass prefixes with a backslash.
#[derive(Clone, Copy)]
pub enum Escape {
    /// Labels and headings: `\ ` * [ ] < > # |`.
    Label,
    /// Table header cells: `\` and `|`.
    TableText,
    /// Inline code inside a table cell: `|`.
    Pipe,
}

pub open spec fn escaped_by(kind: Escape, c: char) -> bool {
    match kind {
        Escape::Label => c == '\\' || c == '`' || c == '*' || c == '[' || c == ']' || c == '<' || c == '>'
            || c == '#' || c == '|',
        Escape::TableText => c == '\\' || c == '|',
        Escape::Pipe => c == '|',
    }
}

/// `s` with every character of the escaping pass prefixed by a backslash.
pub open spec fn escape(kind: Escape, s: Seq<char>) -> Seq<char>
    decreases s.len(),
{
    if s.len() == 0 {
        Seq::empty()
    } else {
        escape(kind, s.drop_last()) + if escaped_by(kind, s.last()) {
            seq!['\\', s.last()]
        } else {
            seq![s.last()]
        }
    }
}

/// Inline code: a fence one backtick longer than the longest run inside,
/// padded with spaces when the text starts or ends with a backtick; inside a
/// table cell the pipes are escaped.
pub open spec fn inline_code(value: Seq<char>, table_cell: bool) -> Seq<char> {
    let fence = repeat('`', saturating_inc(longest_backtick_run(value)));
    let escaped = if table_cell {
        escape(Escape::Pipe, value)
    } else {
        value
    };
    let padding = if value.len() > 0 && (value[0] == '`' || value.last() == '`') {
        seq![' ']
    } else {
        Seq::empty()
    };
    fence + padding + escaped + padding + fence
}

/// Whether `s` holds a line break.
pub open spec fn has_line_break(s: Seq<char>) -> bool {
    find_either_from(s, '\n', '\r', 0) >= 0
}

// ---------------------------------------------------------------------------
// Plain strings
// ---------------------------------------------------------------------------
pub open spec fn is_ascii_digit(c: char) -> bool {
    '0' <= c && c <= '9'
}

pub open spec fn all_digits(s: Seq<char>) -> bool {
    forall|i: int| 0 <= i < s.len() ==> is_ascii_digit(#[trigger] s[i])
}

/// `s` without one leading `+` or `-`.
pub open spec fn unsigned(s: Seq<char>) -> Seq<char> {
    if s.len() > 0 && (s[0] == '+' || s[0] == '-') {
        s.drop_first()
    } else {
        s
    }
}

/// `Digit+ | Digit+ '.' Digit* | Digit* '.' Digit+`.
pub open spec fn mantissa_syntax(m: Seq<char>) -> bool {
    let d = crate::text::find_char_from(m, '.', 0);
    if d < 0 {
        m.len() > 0 && all_digits(m)
    } else {
        all_digits(m.take(d)) && all_digits(m.skip(d + 1)) && (d > 0 || d + 1 < m.len())
    }
}

/// `Mantissa ('e' Sign? Digit+)?`, letters already lowercased.
pub open spec fn number_syntax(b: Seq<char>) -> bool {
    let e = crate::text::find_char_from(b, 'e', 0);
    if e < 0 {
        mantissa_syntax(b)
    } else {
        mantissa_syntax(b.take(e)) && unsigned(b.skip(e + 1)).len() > 0 && all_digits(unsigned(b.skip(e + 1)))
    }
}

/// The grammar that `f64::from_str` accepts, ASCII case ignored:
/// `Sign? ('inf' | 'infinity' | 'nan' | Number)`.
pub open spec fn float_syntax(s: Seq<char>) -> bool {
    let body = unsigned(crate::text::ascii_lowercase(s));
    body == "inf"@ || body == "infinity"@ || body == "nan"@ || number_syntax(body)
}

/// Every underscore sits between two alphanumeric characters.
pub open spec fn underscores_flanked(s: Seq<char>) -> bool {
    forall|i: int|
        0 <= i < s.len() && #[trigger] s[i] == '_' ==> 0 < i && i + 1 < s.len() && unicode_alphanumeric(s[i - 1])
            && unicode_alphanumeric(s[i + 1])
}

pub open spec fn is_ascii_punctuation(c: char) -> bool {
    ('!' <= c && c <= '/') || (':' <= c && c <= '@') || ('[' <= c && c <= '`') || ('{' <= c && c <= '~')
}

/// A backslash followed by ASCII punctuation somewhere in `s`.
pub open spec fn escaped_punctuation(s: Seq<char>) -> bool {
    exists|i: int| 0 <= i && i + 1 < s.len() && #[trigger] s[i] == '\\' && is_ascii_punctuation(s[i + 1])
}

pub open spec fn plain_char(c: char) -> bool {
    unicode_alphanumeric(c) || c == '_' || c == '-' || c == '.' || c == '/' || c == '\\' || c == ':' || c == '@'
        || c == '+' || c == '=' || c == '~' || c == '#'
}

/// A string that Markdown shows literally without quoting: not empty, not a
/// JSON keyword or number, no emphasis or strike-through markers, no escape
/// sequences, only identifier and path characters.
pub open spec fn plain_string(s: Seq<char>) -> bool {
    &&& s.len() > 0
    &&& s != "true"@ && s != "false"@ && s != "null"@
    &&& !float_syntax(s)
    &&& underscores_flanked(s)
    &&& find_pair_from(s, '~', '~', 0) < 0
    &&& !escaped_punctuation(s)
    &&& forall|i: int| 0 <= i < s.len() ==> plain_char(#[trigger] s[i])
}

pub open spec fn has_whitespace(s: Seq<char>) -> bool {
    exists|i: int| 0 <= i < s.len() && unicode_whitespace(#[trigger] s[i])
}

// ---------------------------------------------------------------------------
// Values
// ---------------------------------------------------------------------------
pub open spec fn is_scalar(v: JsonView) -> bool {
    v is Null || v is Bool || v is Number || v is String
}

pub open spec fn all_scalar(items: Seq<JsonView>) -> bool {
    forall|i: int| 0 <= i < items.len() ==> is_scalar(#[trigger] items[i])
}

/// A value written on the line of its label.
pub open spec fn is_inline(v: JsonView) -> bool {
    match v {
        JsonView::String(t) => !has_line_break(t),
        JsonView::Array(items) => items.len() == 0 || all_scalar(items),
        JsonView::Object(fields) => fields.len() == 0,
        _ => true,
    }
}

/// A value written as a section of its own.
pub open spec fn is_child(v: JsonView) -> bool {
    !is_inline(v) && !(v is String)
}

/// Sections of anchors come first, then the source, then the rest.
pub open spec fn child_priority(name: Seq<char>) -> int {
    if name == "definition"@ || name == "symbol"@ {
        0
    } else if name == "source"@ {
        1
    } else {
        2
    }
}

/// How a value that fits on one line is written.
pub open spec fn inline_value(v: JsonView, table_cell: bool) -> Seq<char> {
    match v {
        JsonView::String(t) => if plain_string(t) {
            t
        } else if t.len() > 0 && !has_whitespace(t) {
            inline_code(t, table_cell)
        } else {
            inline_code(json_string_spec(t), table_cell)
        },
        JsonView::Array(items) => if items.len() == 0 {
            "[]"@
        } else {
            inline_code(json_text(v), table_cell)
        },
        JsonView::Object(_) => "{}"@,
        _ => json_text(v),
    }
}

// ---------------------------------------------------------------------------
// Executable pieces
// ---------------------------------------------------------------------------
/// Length of the longest run of backticks.
fn longest_run(s: &[char]) -> (r: usize)
    ensures
        r == longest_backtick_run(s@),
{
    let mut best: usize = 0;
    let mut current: usize = 0;
    let mut i: usize = 0;
    while i < s.len()
        invariant
            i <= s@.len(),
            current == trailing_ticks(s@, i as int),
            best == longest_ticks(s@, i as int),
            current <= i,
            best <= i,
        decreases s@.len() - i,
    {
        if s[i] == '`' {
            current = current + 1;
        } else {
            current = 0;
        }
        if current > best {
            best = current;
        }
        i = i + 1;
    }
    best
}

/// Appends `n` copies of `c`.
fn push_repeat(out: &mut Vec<char>, c: char, n: usize)
    ensures
        final(out)@ == old(out)@ + repeat(c, n as nat),
{
    let mut k: usize = 0;
    while k < n
        invariant
            k <= n,
            out@ == old(out)@ + repeat(c, k as nat),
        decreases n - k,
    {
        out.push(c);
        k = k + 1;
        assert(out@ =~= old(out)@ + repeat(c, k as nat));
    }
}

/// Appends `s` escaped by the pass `kind`.
fn push_escaped(out: &mut Vec<char>, kind: Escape, s: &[char])
    ensures
        final(out)@ == old(out)@ + escape(kind, s@),
{
    let mut k: usize = 0;
    while k < s.len()
        invariant
            k <= s@.len(),
            out@ == old(out)@ + escape(kind, s@.take(k as int)),
        decreases s@.len() - k,
    {
        let c = s[k];
        let special = match kind {
            Escape::Label => c == '\\' || c == '`' || c == '*' || c == '[' || c == ']' || c == '<' || c == '>'
                || c == '#' || c == '|',
            Escape::TableText => c == '\\' || c == '|',
            Escape::Pipe => c == '|',
        };
        if special {
            out.push('\\');
        }
        out.push(c);
        assert(s@.take(k + 1).drop_last() =~= s@.take(k as int));
        k = k + 1;
        assert(out@ =~= old(out)@ + escape(kind, s@.take(k as int)));
    }
    assert(s@.take(s@.len() as int) =~= s@);
}

/// Appends `value` as inline code.
#[verifier::rlimit(50)]
fn push_inline_code(out: &mut Vec<char>, value: &[char], table_cell: bool)
    ensures
        final(out)@ == old(out)@ + inline_code(value@, table_cell),
{
    let longest = longest_run(value);
    let width = if longest < usize::MAX {
        longest + 1
    } else {
        longest
    };
    let padded = value.len() > 0 && (value[0] == '`' || value[value.len() - 1] == '`');
    assert(padded == (value@.len() > 0 && (value@[0] == '`' || value@.last() == '`')));
    assert(width == saturating_inc(longest_backtick_run(value@)));
    let ghost start = out@;
    let ghost fence = repeat('`', saturating_inc(longest_backtick_run(value@)));
    let ghost padding = if padded {
        seq![' ']
    } else {
        Seq::<char>::empty()
    };
    let ghost escaped = if table_cell {
        escape(Escape::Pipe, value@)
    } else {
        value@
    };
    push_repeat(out, '`', width);
    if padded {
        out.push(' ');
    }
    assert(out@ =~= start + fence + padding);
    if table_cell {
        push_escaped(out, Escape::Pipe, value);
    } else {
        append_chars(out, value);
    }
    assert(out@ =~= start + fence + padding + escaped);
    if padded {
        out.push(' ');
    }
    push_repeat(out, '`', width);
    assert(out@ =~= start + (fence + padding + escaped + padding + fence));
}

/// Whether every character is an ASCII digit.
fn digits_only(s: &[char]) -> (r: bool)
    ensures
        r == all_digits(s@),
{
    let mut i: usize = 0;
    while i < s.len()
        invariant
            i <= s@.len(),
            forall|j: int| 0 <= j < i ==> is_ascii_digit(#[trigger] s@[j]),
        decreases s@.len() - i,
    {
        if !('0' <= s[i] && s[i] <= '9') {
            return false;
        }
        i = i + 1;
    }
    true
}

/// `s` without one leading sign.
fn unsigned_chars(s: &[char]) -> (r: Vec<char>)
    ensures
        r@ == unsigned(s@),
{
    if s.len() > 0 && (s[0] == '+' || s[0] == '-') {
        let r = copy_range(s, 1, s.len());
        assert(r@ =~= s@.drop_first());
        r
    } else {
        copy_range(s, 0, s.len())
    }
}

fn mantissa_ok(m: &[char]) -> (r: bool)
    ensures
        r == mantissa_syntax(m@),
{
    proof {
        lemma_find_char_from_bounds(m@, '.', 0);
    }
    let n = m.len();
    match find_char(m, '.', 0) {
        None => n > 0 && digits_only(m),
        Some(d) => {
            assert(d < n);
            let whole = copy_range(m, 0, d);
            let fraction = copy_range(m, d + 1, m.len());
            assert(whole@ =~= m@.take(d as int));
            assert(fraction@ =~= m@.skip(d + 1));
            digits_only(whole.as_slice()) && digits_only(fraction.as_slice()) && (d > 0 || d + 1 < m.len())
        },
    }
}

fn number_ok(b: &[char]) -> (r: bool)
    ensures
        r == number_syntax(b@),
{
    proof {
        lemma_find_char_from_bounds(b@, 'e', 0);
    }
    let n = b.len();
    match find_char(b, 'e', 0) {
        None => mantissa_ok(b),
        Some(e) => {
            assert(e < n);
            let mantissa = copy_range(b, 0, e);
            let exponent = copy_range(b, e + 1, b.len());
            assert(mantissa@ =~= b@.take(e as int));
            assert(exponent@ =~= b@.skip(e + 1));
            let digits = unsigned_chars(exponent.as_slice());
            mantissa_ok(mantissa.as_slice()) && digits.len() > 0 && digits_only(digits.as_slice())
        },
    }
}

/// Whether `f64::from_str` would accept `s`.
fn parses_as_float(s: &[char]) -> (r: bool)
    ensures
        r == float_syntax(s@),
{
    let lower = ascii_lowercase_chars(s);
    let body = unsigned_chars(lower.as_slice());
    chars_equal(body.as_slice(), chars_of("inf").as_slice()) || chars_equal(
        body.as_slice(),
        chars_of("infinity").as_slice(),
    ) || chars_equal(body.as_slice(), chars_of("nan").as_slice()) || number_ok(body.as_slice())
}

/// Whether `s` is written without quoting (see [`plain_string`]).
fn is_plain(s: &[char]) -> (r: bool)
    ensures
        r == plain_string(s@),
{
    if s.len() == 0 {
        return false;
    }
    if chars_equal(s, chars_of("true").as_slice()) || chars_equal(s, chars_of("false").as_slice()) || chars_equal(
        s,
        chars_of("null").as_slice(),
    ) {
        return false;
    }
    if parses_as_float(s) {
        return false;
    }
    let mut i: usize = 0;
    while i < s.len()
        invariant
            i <= s@.len(),
            forall|j: int|
                0 <= j < i && #[trigger] s@[j] == '_' ==> 0 < j && j + 1 < s@.len() && unicode_alphanumeric(
                    s@[j - 1],
                ) && unicode_alphanumeric(s@[j + 1]),
            forall|j: int| 0 <= j < i ==> plain_char(#[trigger] s@[j]),
            forall|j: int| 0 <= j < i && j + 1 < s@.len() && #[trigger] s@[j] == '\\' ==> !is_ascii_punctuation(s@[j + 1]),
        decreases s@.len() - i,
    {
        let c = s[i];
        if c == '_' {
            if !(i > 0 && i + 1 < s.len() && char_is_alphanumeric(s[i - 1]) && char_is_alphanumeric(s[i + 1])) {
                assert(!underscores_flanked(s@));
                return false;
            }
        }
        if c == '\\' && i + 1 < s.len() {
            let n = s[i + 1];
            if ('!' <= n && n <= '/') || (':' <= n && n <= '@') || ('[' <= n && n <= '`') || ('{' <= n && n <= '~') {
                assert(escaped_punctuation(s@));
                return false;
            }
        }
        if !(char_is_alphanumeric(c) || c == '_' || c == '-' || c == '.' || c == '/' || c == '\\' || c == ':' || c
            == '@' || c == '+' || c == '=' || c == '~' || c == '#') {
            assert(!plain_char(s@[i as int]));
            return false;
        }
        i = i + 1;
    }
    match find_pair(s, '~', '~', 0) {
        Some(_) => false,
        None => true,
    }
}

/// Whether `s` holds a whitespace character.
fn contains_whitespace(s: &[char]) -> (r: bool)
    ensures
        r == has_whitespace(s@),
{
    let mut i: usize = 0;
    while i < s.len()
        invariant
            i <= s@.len(),
            forall|j: int| 0 <= j < i ==> !unicode_whitespace(#[trigger] s@[j]),
        decreases s@.len() - i,
    {
        if char_is_whitespace(s[i]) {
            return true;
        }
        i = i + 1;
    }
    false
}

/// Appends how `v` is written on one line.
fn push_inline_value(out: &mut Vec<char>, v: &JsonValue, table_cell: bool)
    ensures
        final(out)@ == old(out)@ + inline_value(v@, table_cell),
{
    match v {
        JsonValue::String(t) => {
            let text = chars_of(t.as_str());
            if is_plain(text.as_slice()) {
                append_chars(out, text.as_slice());
            } else if text.len() > 0 && !contains_whitespace(text.as_slice()) {
                push_inline_code(out, text.as_slice(), table_cell);
            } else {
                push_inline_code(out, chars_of(json_string(t.as_str()).as_str()).as_slice(), table_cell);
            }
        },
        JsonValue::Array(items) => {
            if items.len() == 0 {
                append_chars(out, chars_of("[]").as_slice());
                proof {
                    lemma_items_view(items@, 0);
                }
            } else {
                proof {
                    lemma_items_view(items@, items@.len() as int);
                }
                push_inline_code(out, chars_of(v.to_json_string().as_str()).as_slice(), table_cell);
            }
        },
        JsonValue::Object(_) => append_chars(out, chars_of("{}").as_slice()),
        _ => append_chars(out, chars_of(v.to_json_string().as_str()).as_slice()),
    }
}

// ---------------------------------------------------------------------------
// Flat tables
// ---------------------------------------------------------------------------
/// One table row: cells by column name, in column-name order.
pub type Row = Seq<(Seq<char>, JsonView)>;

/// The column of member `name` under the columns path `prefix`.
pub open spec fn column_path(prefix: Seq<char>, name: Seq<char>) -> Seq<char> {
    if prefix.len() == 0 {
        name
    } else {
        prefix + seq!['.'] + name
    }
}

/// `row` with the cells of `v` at column `path`: nested objects spread into
/// dotted columns, empty containers and one-line scalars are cells, and
/// anything else (a non-empty array, a multi-line string) has no flat form.
pub open spec fn flatten_value(path: Seq<char>, v: JsonView, row: Row) -> Option<Row>
    decreases v, 0int,
{
    match v {
        JsonView::Object(fields) => if fields.len() == 0 {
            Some(member_insert(row, path, v))
        } else {
            flatten_members(fields, fields.len() as int, path, row)
        },
        JsonView::Array(items) => if items.len() == 0 {
            Some(member_insert(row, path, v))
        } else {
            None
        },
        JsonView::String(t) => if has_line_break(t) {
            None
        } else {
            Some(member_insert(row, path, v))
        },
        _ => Some(member_insert(row, path, v)),
    }
}

/// `row` with the cells of the first `k` members under `prefix`.
pub open spec fn flatten_members(fields: Seq<(Seq<char>, JsonView)>, k: int, prefix: Seq<char>, row: Row) -> Option<
    Row,
>
    decreases fields, k,
{
    if k <= 0 || k > fields.len() {
        Some(row)
    } else {
        match flatten_members(fields, k - 1, prefix, row) {
            None => None,
            Some(r) => flatten_value(column_path(prefix, fields[k - 1].0), fields[k - 1].1, r),
        }
    }
}

/// The row of one item: its flattened members, when it is an object that
/// flattens to at least one cell.
pub open spec fn flat_row(v: JsonView) -> Option<Row> {
    match v {
        JsonView::Object(fields) => match flatten_members(fields, fields.len() as int, Seq::empty(), Seq::empty()) {
            Some(r) => if r.len() == 0 {
                None
            } else {
                Some(r)
            },
            None => None,
        },
        _ => None,
    }
}

pub open spec fn row_keys(r: Row) -> Seq<Seq<char>> {
    r.map_values(|m: (Seq<char>, JsonView)| m.0)
}

/// `cols` extended by the first `k` of `keys` that it lacks, in order.
pub open spec fn add_columns(cols: Seq<Seq<char>>, keys: Seq<Seq<char>>, k: int) -> Seq<Seq<char>>
    decreases k,
{
    if k <= 0 || k > keys.len() {
        cols
    } else {
        let c = add_columns(cols, keys, k - 1);
        if c.contains(keys[k - 1]) {
            c
        } else {
            c.push(keys[k - 1])
        }
    }
}

/// The first `k` columns of `common` that row `r` has.
pub open spec fn keep_present(common: Seq<Seq<char>>, r: Row, k: int) -> Seq<Seq<char>>
    decreases k,
{
    if k <= 0 || k > common.len() {
        Seq::empty()
    } else {
        let c = keep_present(common, r, k - 1);
        if member_get(r, common[k - 1]) is Some {
            c.push(common[k - 1])
        } else {
            c
        }
    }
}

/// The table of the first `k` items: all columns in order of first
/// appearance, the rows, and the columns that every row has (none before the
/// first row).
pub open spec fn table_rows(items: Seq<JsonView>, k: int) -> Option<
    (Seq<Seq<char>>, Seq<Row>, Option<Seq<Seq<char>>>),
>
    decreases k,
{
    if k <= 0 || k > items.len() {
        Some((Seq::empty(), Seq::empty(), None))
    } else {
        match table_rows(items, k - 1) {
            None => None,
            Some((cols, rows, common)) => match flat_row(items[k - 1]) {
                None => None,
                Some(r) => {
                    let keys = row_keys(r);
                    Some(
                        (
                            add_columns(cols, keys, keys.len() as int),
                            rows.push(r),
                            Some(
                                match common {
                                    None => keys,
                                    Some(c) => keep_present(c, r, c.len() as int),
                                },
                            ),
                        ),
                    )
                },
            },
        }
    }
}

/// Items that share one table: a non-empty list of objects that all flatten,
/// with at least one column in common.
pub open spec fn flat_table(items: Seq<JsonView>) -> Option<(Seq<Seq<char>>, Seq<Row>)> {
    if items.len() == 0 {
        None
    } else {
        match table_rows(items, items.len() as int) {
            Some((cols, rows, Some(common))) => if common.len() > 0 {
                Some((cols, rows))
            } else {
                None
            },
            _ => None,
        }
    }
}

proof fn lemma_flatten_members_stays_none(fields: Seq<(Seq<char>, JsonView)>, k: int, j: int, prefix: Seq<char>, row: Row)
    requires
        0 <= k <= j <= fields.len(),
        flatten_members(fields, k, prefix, row) is None,
    ensures
        flatten_members(fields, j, prefix, row) is None,
    decreases j - k,
{
    if j > k {
        lemma_flatten_members_stays_none(fields, k, j - 1, prefix, row);
    }
}

/// `prefix` followed by a dot and `name` when `prefix` is not empty.
fn column_path_chars(prefix: &[char], name: &str) -> (r: Vec<char>)
    ensures
        r@ == column_path(prefix@, name@),
{
    let mut r = copy_range(prefix, 0, prefix.len());
    if prefix.len() > 0 {
        r.push('.');
    }
    append_chars(&mut r, chars_of(name).as_slice());
    assert(r@ =~= column_path(prefix@, name@));
    r
}

/// Adds the cells of `v` at column `path` to the object `row`; false when
/// `v` has no flat form.
fn flatten_into(path: &[char], v: &JsonValue, row: &mut JsonValue) -> (ok: bool)
    requires
        old(row)@ is Object,
    ensures
        final(row)@ is Object,
        ok == flatten_value(path@, v@, old(row)@->Object_0) is Some,
        ok ==> final(row)@->Object_0 == flatten_value(path@, v@, old(row)@->Object_0)->Some_0,
    decreases *v,
{
    let ghost start = old(row)@->Object_0;
    match v {
        JsonValue::Object(fields) => {
            if fields.len() == 0 {
                row.insert(string_from_chars(path), v.copy());
                return true;
            }
            let ghost mv = members_view(fields@, fields@.len() as int);
            proof {
                lemma_members_view(fields@, fields@.len() as int);
            }
            let mut i: usize = 0;
            while i < fields.len()
                invariant
                    i <= fields@.len(),
                    fields@.len() > 0,
                    *v == JsonValue::Object(*fields),
                    mv == members_view(fields@, fields@.len() as int),
                    mv.len() == fields@.len(),
                    forall|j: int|
                        0 <= j < fields@.len() ==> #[trigger] mv[j] == (fields@[j].0@, json_view(fields@[j].1)),
                    v@ == JsonView::Object(mv),
                    row@ is Object,
                    start == old(row)@->Object_0,
                    flatten_members(mv, i as int, path@, start) == Some(row@->Object_0),
                decreases fields@.len() - i,
            {
                let child = column_path_chars(path, fields[i].0.as_str());
                proof {
                    assert(decreases_to!(*v => (*v)->Object_0));
                    assert(decreases_to!(*fields => fields@));
                    assert(decreases_to!(fields@ => fields@[i as int]));
                    assert(decreases_to!(fields@[i as int] => fields@[i as int].1));
                }
                let ghost before = row@->Object_0;
                let ok = flatten_into(child.as_slice(), &fields[i].1, row);
                assert(mv[i as int] == (fields@[i as int].0@, fields@[i as int].1@));
                if !ok {
                    proof {
                        assert(flatten_members(mv, i + 1, path@, start) is None);
                        assert(flatten_value(path@, v@, start) == flatten_members(mv, mv.len() as int, path@, start));
                        lemma_flatten_members_stays_none(mv, i + 1, mv.len() as int, path@, start);
                    }
                    return false;
                }
                i = i + 1;
            }
            true
        },
        JsonValue::Array(items) => {
            if items.len() == 0 {
                proof {
                    lemma_items_view(items@, 0);
                }
                row.insert(string_from_chars(path), v.copy());
                true
            } else {
                proof {
                    lemma_items_view(items@, items@.len() as int);
                }
                false
            }
        },
        JsonValue::String(t) => {
            let text = chars_of(t.as_str());
            match find_either(text.as_slice(), '\n', '\r', 0) {
                Some(_) => false,
                None => {
                    row.insert(string_from_chars(path), v.copy());
                    true
                },
            }
        },
        _ => {
            row.insert(string_from_chars(path), v.copy());
            true
        },
    }
}

/// The row of one item (see [`flat_row`]), as an object.
fn flat_row_of(v: &JsonValue) -> (r: Option<JsonValue>)
    ensures
        match r {
            Some(row) => flat_row(v@) == Some(row@->Object_0) && row@ is Object,
            None => flat_row(v@) is None,
        },
{
    match v {
        JsonValue::Object(fields) => {
            if fields.len() == 0 {
                return None;
            }
            proof {
                lemma_members_view(fields@, fields@.len() as int);
            }
            let mut row = JsonValue::object();
            let empty: Vec<char> = Vec::new();
            if !flatten_into(empty.as_slice(), v, &mut row) {
                return None;
            }
            match &row {
                JsonValue::Object(cells) => {
                    if cells.len() == 0 {
                        proof {
                            lemma_members_view(cells@, 0);
                        }
                        return None;
                    }
                    proof {
                        lemma_members_view(cells@, cells@.len() as int);
                    }
                },
                _ => {},
            }
            Some(row)
        },
        _ => None,
    }
}

/// Columns and rows (objects of cells) of items that share one table.
struct FlatTable {
    columns: Vec<String>,
    rows: Vec<JsonValue>,
}

pub open spec fn names_view(c: Seq<String>) -> Seq<Seq<char>> {
    c.map_values(|x: String| x@)
}

pub open spec fn rows_view(r: Seq<JsonValue>) -> Seq<Row> {
    r.map_values(|x: JsonValue| x@->Object_0)
}

pub open spec fn common_view(c: Option<Vec<String>>) -> Option<Seq<Seq<char>>> {
    match c {
        Some(v) => Some(names_view(v@)),
        None => None,
    }
}

proof fn lemma_table_rows_stays_none(items: Seq<JsonView>, k: int, j: int)
    requires
        0 <= k <= j <= items.len(),
        table_rows(items, k) is None,
    ensures
        table_rows(items, j) is None,
    decreases j - k,
{
    if j > k {
        lemma_table_rows_stays_none(items, k, j - 1);
    }
}

/// Whether `name` is one of `names`.
fn has_name(names: &Vec<String>, name: &str) -> (r: bool)
    ensures
        r == names_view(names@).contains(name@),
{
    let mut i: usize = 0;
    while i < names.len()
        invariant
            i <= names@.len(),
            forall|j: int| 0 <= j < i ==> names@[j]@ != name@,
        decreases names@.len() - i,
    {
        if str_eq(names[i].as_str(), name) {
            assert(names_view(names@)[i as int] == name@);
            return true;
        }
        i = i + 1;
    }
    assert forall|j: int| 0 <= j < names_view(names@).len() implies names_view(names@)[j] != name@ by {
        assert(names_view(names@)[j] == names@[j]@);
    }
    false
}

/// The table of `items`, when they share one (see [`flat_table`]).
fn flat_table_of(items: &Vec<JsonValue>) -> (r: Option<FlatTable>)
    ensures
        match r {
            Some(t) => flat_table(items_view(items@, items@.len() as int)) == Some(
                (names_view(t.columns@), rows_view(t.rows@)),
            ) && forall|i: int| 0 <= i < t.rows@.len() ==> (#[trigger] t.rows@[i])@ is Object,
            None => flat_table(items_view(items@, items@.len() as int)) is None,
        },
{
    let ghost iv = items_view(items@, items@.len() as int);
    proof {
        lemma_items_view(items@, items@.len() as int);
    }
    if items.len() == 0 {
        return None;
    }
    let mut columns: Vec<String> = Vec::new();
    let mut rows: Vec<JsonValue> = Vec::new();
    let mut common: Option<Vec<String>> = None;
    let mut i: usize = 0;
    assert(names_view(columns@) =~= Seq::<Seq<char>>::empty());
    assert(rows_view(rows@) =~= Seq::<Row>::empty());
    while i < items.len()
        invariant
            i <= items@.len(),
            iv == items_view(items@, items@.len() as int),
            iv.len() == items@.len(),
            forall|j: int| 0 <= j < items@.len() ==> #[trigger] iv[j] == json_view(items@[j]),
            table_rows(iv, i as int) == Some((names_view(columns@), rows_view(rows@), common_view(common))),
            forall|j: int| 0 <= j < rows@.len() ==> (#[trigger] rows@[j])@ is Object,
        decreases items@.len() - i,
    {
        let row = match flat_row_of(&items[i]) {
            None => {
                proof {
                    assert(table_rows(iv, i + 1) is None);
                    lemma_table_rows_stays_none(iv, i + 1, iv.len() as int);
                }
                return None;
            },
            Some(row) => row,
        };
        let ghost r = row@->Object_0;
        let ghost keys = row_keys(r);
        let ghost old_columns = names_view(columns@);
        match &row {
            JsonValue::Object(cells) => {
                proof {
                    lemma_members_view(cells@, cells@.len() as int);
                }
                assert(keys.len() == cells@.len());
                let mut j: usize = 0;
                while j < cells.len()
                    invariant
                        j <= cells@.len(),
                        row@ == JsonView::Object(members_view(cells@, cells@.len() as int)),
                        r == members_view(cells@, cells@.len() as int),
                        r.len() == cells@.len(),
                        forall|q: int|
                            0 <= q < cells@.len() ==> #[trigger] r[q] == (cells@[q].0@, json_view(cells@[q].1)),
                        keys == row_keys(r),
                        names_view(columns@) == add_columns(old_columns, keys, j as int),
                    decreases cells@.len() - j,
                {
                    assert(keys[j as int] == cells@[j as int].0@);
                    if !has_name(&columns, cells[j].0.as_str()) {
                        columns.push(cells[j].0.clone());
                        assert(names_view(columns@) =~= add_columns(old_columns, keys, j as int).push(keys[j as int]));
                    }
                    j = j + 1;
                }
                let next_common = match &common {
                    None => {
                        let mut all: Vec<String> = Vec::new();
                        let mut q: usize = 0;
                        while q < cells.len()
                            invariant
                                q <= cells@.len(),
                                r == members_view(cells@, cells@.len() as int),
                                r.len() == cells@.len(),
                                forall|t: int|
                                    0 <= t < cells@.len() ==> #[trigger] r[t] == (cells@[t].0@, json_view(cells@[t].1)),
                                keys == row_keys(r),
                                names_view(all@) == keys.take(q as int),
                            decreases cells@.len() - q,
                        {
                            assert(r[q as int] == (cells@[q as int].0@, json_view(cells@[q as int].1)));
                            assert(keys[q as int] == cells@[q as int].0@);
                            let ghost old_all = all@;
                            let name = cells[q].0.clone();
                            assert(name@ == keys[q as int]);
                            all.push(name);
                            assert(all@ =~= old_all.push(name));
                            assert(names_view(all@) =~= names_view(old_all).push(keys[q as int]));
                            assert(keys.take(q + 1) =~= keys.take(q as int).push(keys[q as int]));
                            q = q + 1;
                        }
                        assert(keys.take(keys.len() as int) =~= keys);
                        all
                    },
                    Some(c) => {
                        let mut kept: Vec<String> = Vec::new();
                        let mut q: usize = 0;
                        while q < c.len()
                            invariant
                                q <= c@.len(),
                                row@ == JsonView::Object(r),
                                names_view(kept@) == keep_present(names_view(c@), r, q as int),
                            decreases c@.len() - q,
                        {
                            assert(names_view(c@)[q as int] == c@[q as int]@);
                            if row.get(c[q].as_str()).is_some() {
                                kept.push(c[q].clone());
                                assert(names_view(kept@) =~= keep_present(names_view(c@), r, q as int).push(
                                    c@[q as int]@,
                                ));
                            }
                            q = q + 1;
                        }
                        kept
                    },
                };
                common = Some(next_common);
            },
            _ => {},
        }
        let ghost old_rows = rows@;
        rows.push(row);
        proof {
            assert(rows@ =~= old_rows.push(row));
            assert(rows_view(rows@) =~= rows_view(old_rows).push(r));
        }
        i = i + 1;
    }
    match common {
        Some(c) => {
            if c.len() > 0 {
                Some(FlatTable { columns, rows })
            } else {
                None
            }
        },
        None => None,
    }
}

// ---------------------------------------------------------------------------
// Documents
// ---------------------------------------------------------------------------
/// `out` followed by a line break unless it is empty or already ends with a
/// blank line.
pub open spec fn blank_line(out: Seq<char>) -> Seq<char> {
    if out.len() > 0 && !ends_with(out, seq!['\n', '\n']) {
        out.push('\n')
    } else {
        out
    }
}

/// A heading of `level` hashes (between one and six) naming `name`.
pub open spec fn heading(level: usize, name: Seq<char>) -> Seq<char> {
    let hashes: nat = if level < 1 {
        1
    } else if level > 6 {
        6
    } else {
        level as nat
    };
    repeat('#', hashes) + seq![' '] + escape(Escape::Label, name) + seq!['\n']
}

/// A multi-line text in a fence of at least three backticks, longer than
/// any run of backticks inside.
pub open spec fn fenced(text: Seq<char>) -> Seq<char> {
    let run = saturating_inc(longest_backtick_run(text));
    let fence = repeat('`', if run < 3 {
        3
    } else {
        run
    });
    let line_end = if text.len() > 0 && (text.last() == '\n' || text.last() == '\r') {
        Seq::empty()
    } else {
        seq!['\n']
    };
    fence + seq!['\n'] + text + line_end + fence + seq!['\n']
}

/// The next heading level.
pub open spec fn deeper(level: usize) -> usize {
    if level < usize::MAX {
        (level + 1) as usize
    } else {
        level
    }
}

/// The line of member `name` when its value is written beside the label; a
/// multi-line string follows its label in a fence.
pub open spec fn leaf_line(name: Seq<char>, v: JsonView) -> Seq<char> {
    match v {
        JsonView::String(t) => if has_line_break(t) {
            "- "@ + escape(Escape::Label, name) + ":\n"@ + fenced(t)
        } else {
            "- "@ + escape(Escape::Label, name) + ": "@ + inline_value(v, false) + seq!['\n']
        },
        _ => if is_inline(v) {
            "- "@ + escape(Escape::Label, name) + ": "@ + inline_value(v, false) + seq!['\n']
        } else {
            Seq::empty()
        },
    }
}

/// The lines of the first `k` members written beside their labels.
pub open spec fn leaf_lines(fields: Seq<(Seq<char>, JsonView)>, k: int) -> Seq<char>
    decreases k,
{
    if k <= 0 || k > fields.len() {
        Seq::empty()
    } else {
        leaf_lines(fields, k - 1) + leaf_line(fields[k - 1].0, fields[k - 1].1)
    }
}

/// The header cells of the first `k` columns.
pub open spec fn header_cells(cols: Seq<Seq<char>>, k: int) -> Seq<char>
    decreases k,
{
    if k <= 0 || k > cols.len() {
        Seq::empty()
    } else {
        header_cells(cols, k - 1) + escape(Escape::TableText, cols[k - 1]) + seq!['|']
    }
}

/// The separator cells of `n` columns.
pub open spec fn separator_cells(n: nat) -> Seq<char>
    decreases n,
{
    if n == 0 {
        Seq::empty()
    } else {
        separator_cells((n - 1) as nat) + "---|"@
    }
}

/// The cells of row `r` in the first `k` columns; a missing cell is empty.
pub open spec fn row_cells(cols: Seq<Seq<char>>, r: Row, k: int) -> Seq<char>
    decreases k,
{
    if k <= 0 || k > cols.len() {
        Seq::empty()
    } else {
        row_cells(cols, r, k - 1) + match member_get(r, cols[k - 1]) {
            Some(v) => inline_value(v, true),
            None => Seq::empty(),
        } + seq!['|']
    }
}

/// The lines of the first `k` rows.
pub open spec fn row_lines(cols: Seq<Seq<char>>, rows: Seq<Row>, k: int) -> Seq<char>
    decreases k,
{
    if k <= 0 || k > rows.len() {
        Seq::empty()
    } else {
        row_lines(cols, rows, k - 1) + seq!['|'] + row_cells(cols, rows[k - 1], cols.len() as int) + seq!['\n']
    }
}

/// A Markdown table: header, separator, one line per row.
pub open spec fn table_text(cols: Seq<Seq<char>>, rows: Seq<Row>) -> Seq<char> {
    seq!['|'] + header_cells(cols, cols.len() as int) + seq!['\n'] + seq!['|'] + separator_cells(cols.len()) + seq![
        '\n',
    ] + row_lines(cols, rows, rows.len() as int)
}

/// `out` followed by the rendering of `v` with sections at heading `level`:
/// an object writes its one-line members as a list, then each other member
/// as a section (anchors first, then the source, then the rest); an array
/// of flat objects is a table, an array of scalars one inline value, any
/// other array a numbered list whose larger items are sections.
pub open spec fn render_value(out: Seq<char>, v: JsonView, level: usize) -> Seq<char>
    decreases v, 0int,
{
    match v {
        JsonView::Object(fields) => if fields.len() == 0 {
            out + "{}\n"@
        } else {
            let leaves = out + leaf_lines(fields, fields.len() as int);
            let anchors = render_children(leaves, fields, fields.len() as int, level, 0);
            let source = render_children(anchors, fields, fields.len() as int, level, 1);
            render_children(source, fields, fields.len() as int, level, 2)
        },
        JsonView::Array(items) => if items.len() == 0 {
            out + "[]\n"@
        } else {
            match flat_table(items) {
                Some((cols, rows)) => out + table_text(cols, rows),
                None => if all_scalar(items) {
                    out + inline_value(v, false) + seq!['\n']
                } else {
                    render_items(out, items, items.len() as int, level)
                },
            }
        },
        _ => out + inline_value(v, false) + seq!['\n'],
    }
}

/// `out` followed by the sections of priority `p` among the first `k`
/// members.
pub open spec fn render_children(
    out: Seq<char>,
    fields: Seq<(Seq<char>, JsonView)>,
    k: int,
    level: usize,
    p: int,
) -> Seq<char>
    decreases fields, k,
{
    if k <= 0 || k > fields.len() {
        out
    } else {
        let before = render_children(out, fields, k - 1, level, p);
        if is_child(fields[k - 1].1) && child_priority(fields[k - 1].0) == p {
            render_value(blank_line(before) + heading(level, fields[k - 1].0), fields[k - 1].1, deeper(level))
        } else {
            before
        }
    }
}

/// `out` followed by the first `k` items of a numbered list.
pub open spec fn render_items(out: Seq<char>, items: Seq<JsonView>, k: int, level: usize) -> Seq<char>
    decreases items, k,
{
    if k <= 0 || k > items.len() {
        out
    } else {
        let before = render_items(out, items, k - 1, level);
        if is_inline(items[k - 1]) {
            before + decimal(k as nat) + ". "@ + inline_value(items[k - 1], false) + seq!['\n']
        } else {
            render_value(blank_line(before) + heading(level, decimal(k as nat)), items[k - 1], deeper(level))
        }
    }
}

/// The Markdown document of a value: its rendering at heading level two,
/// ending in exactly one line break.
pub open spec fn render_spec(v: JsonView) -> Seq<char> {
    trim_end_char(render_value(Seq::empty(), v, 2), '\n').push('\n')
}

/// Appends a line break unless `out` is empty or ends with a blank line.
fn push_blank_line(out: &mut Vec<char>)
    ensures
        final(out)@ == blank_line(old(out)@),
{
    let blank = vec!['\n', '\n'];
    assert(blank@ =~= seq!['\n', '\n']);
    if out.len() > 0 && !ends_with_chars(out.as_slice(), blank.as_slice()) {
        out.push('\n');
    }
}

/// Appends a heading.
fn push_heading(out: &mut Vec<char>, level: usize, name: &[char])
    ensures
        final(out)@ == old(out)@ + heading(level, name@),
{
    let hashes: usize = if level < 1 {
        1
    } else if level > 6 {
        6
    } else {
        level
    };
    let ghost start = out@;
    push_repeat(out, '#', hashes);
    out.push(' ');
    push_escaped(out, Escape::Label, name);
    out.push('\n');
    assert(out@ =~= start + heading(level, name@));
}

/// Appends a multi-line text in a fence.
#[verifier::rlimit(50)]
fn push_fenced(out: &mut Vec<char>, text: &[char])
    ensures
        final(out)@ == old(out)@ + fenced(text@),
{
    let longest = longest_run(text);
    let run = if longest < usize::MAX {
        longest + 1
    } else {
        longest
    };
    let width = if run < 3 {
        3
    } else {
        run
    };
    let ends_line = text.len() > 0 && (text[text.len() - 1] == '\n' || text[text.len() - 1] == '\r');
    let ghost start = out@;
    let ghost fence = repeat('`', width as nat);
    push_repeat(out, '`', width);
    out.push('\n');
    append_chars(out, text);
    if !ends_line {
        out.push('\n');
    }
    assert(out@ =~= start + fence + seq!['\n'] + text@ + (if ends_line {
        Seq::<char>::empty()
    } else {
        seq!['\n']
    }));
    push_repeat(out, '`', width);
    out.push('\n');
    assert(out@ =~= start + fenced(text@));
}

/// Whether a value is written beside its label (see [`is_inline`]).
fn inline_kind(v: &JsonValue) -> (r: bool)
    ensures
        r == is_inline(v@),
{
    match v {
        JsonValue::String(t) => {
            let text = chars_of(t.as_str());
            find_either(text.as_slice(), '\n', '\r', 0).is_none()
        },
        JsonValue::Array(items) => {
            proof {
                lemma_items_view(items@, items@.len() as int);
            }
            scalars_only(items)
        },
        JsonValue::Object(fields) => {
            proof {
                lemma_members_view(fields@, fields@.len() as int);
            }
            fields.len() == 0
        },
        _ => true,
    }
}

/// Whether every item is a scalar.
fn scalars_only(items: &Vec<JsonValue>) -> (r: bool)
    ensures
        r == all_scalar(items_view(items@, items@.len() as int)),
{
    let ghost iv = items_view(items@, items@.len() as int);
    proof {
        lemma_items_view(items@, items@.len() as int);
    }
    let mut i: usize = 0;
    while i < items.len()
        invariant
            i <= items@.len(),
            iv == items_view(items@, items@.len() as int),
            iv.len() == items@.len(),
            forall|j: int| 0 <= j < items@.len() ==> #[trigger] iv[j] == json_view(items@[j]),
            forall|j: int| 0 <= j < i ==> is_scalar(#[trigger] iv[j]),
        decreases items@.len() - i,
    {
        let scalar = match &items[i] {
            JsonValue::Array(_) => false,
            JsonValue::Object(_) => false,
            _ => true,
        };
        assert(iv[i as int] == items@[i as int]@);
        if !scalar {
            return false;
        }
        i = i + 1;
    }
    true
}

/// The section priority of a member name (see [`child_priority`]).
fn priority_of(name: &str) -> (r: usize)
    ensures
        r as int == child_priority(name@),
{
    if str_eq(name, "definition") || str_eq(name, "symbol") {
        0
    } else if str_eq(name, "source") {
        1
    } else {
        2
    }
}

/// Appends the line of a member written beside its label, if it is one.
fn push_leaf_line(out: &mut Vec<char>, name: &str, v: &JsonValue)
    ensures
        final(out)@ == old(out)@ + leaf_line(name@, v@),
{
    let ghost start = out@;
    let label = chars_of(name);
    match v {
        JsonValue::String(t) => {
            let text = chars_of(t.as_str());
            if find_either(text.as_slice(), '\n', '\r', 0).is_some() {
                append_chars(out, chars_of("- ").as_slice());
                push_escaped(out, Escape::Label, label.as_slice());
                append_chars(out, chars_of(":\n").as_slice());
                push_fenced(out, text.as_slice());
                assert(out@ =~= start + leaf_line(name@, v@));
                return;
            }
        },
        _ => {},
    }
    if inline_kind(v) {
        append_chars(out, chars_of("- ").as_slice());
        push_escaped(out, Escape::Label, label.as_slice());
        append_chars(out, chars_of(": ").as_slice());
        push_inline_value(out, v, false);
        out.push('\n');
        assert(out@ =~= start + leaf_line(name@, v@));
    } else {
        assert(leaf_line(name@, v@) =~= Seq::<char>::empty());
        assert(out@ =~= start + leaf_line(name@, v@));
    }
}

/// Whether a value is written as a section (see [`is_child`]).
fn child_kind(v: &JsonValue) -> (r: bool)
    ensures
        r == is_child(v@),
{
    let string = match v {
        JsonValue::String(_) => true,
        _ => false,
    };
    !inline_kind(v) && !string
}

/// The next heading level (see [`deeper`]).
fn deeper_level(level: usize) -> (r: usize)
    ensures
        r == deeper(level),
{
    if level < usize::MAX {
        level + 1
    } else {
        level
    }
}

/// Appends a table.
fn write_table(out: &mut Vec<char>, table: &FlatTable)
    requires
        forall|i: int| 0 <= i < table.rows@.len() ==> (#[trigger] table.rows@[i])@ is Object,
    ensures
        final(out)@ == old(out)@ + table_text(names_view(table.columns@), rows_view(table.rows@)),
{
    let ghost cols = names_view(table.columns@);
    let ghost rows = rows_view(table.rows@);
    let ghost start = out@;
    out.push('|');
    let mut c: usize = 0;
    while c < table.columns.len()
        invariant
            c <= table.columns@.len(),
            cols == names_view(table.columns@),
            out@ == start + seq!['|'] + header_cells(cols, c as int),
        decreases table.columns@.len() - c,
    {
        assert(cols[c as int] == table.columns@[c as int]@);
        push_escaped(out, Escape::TableText, chars_of(table.columns[c].as_str()).as_slice());
        out.push('|');
        c = c + 1;
        assert(out@ =~= start + seq!['|'] + header_cells(cols, c as int));
    }
    out.push('\n');
    out.push('|');
    let ghost header = out@;
    let mut c: usize = 0;
    while c < table.columns.len()
        invariant
            c <= table.columns@.len(),
            out@ == header + separator_cells(c as nat),
        decreases table.columns@.len() - c,
    {
        append_chars(out, chars_of("---|").as_slice());
        c = c + 1;
        assert(out@ =~= header + separator_cells(c as nat));
    }
    out.push('\n');
    let ghost body = out@;
    assert(body =~= start + (seq!['|'] + header_cells(cols, cols.len() as int) + seq!['\n'] + seq!['|']
        + separator_cells(cols.len()) + seq!['\n']));
    let mut r: usize = 0;
    while r < table.rows.len()
        invariant
            r <= table.rows@.len(),
            cols == names_view(table.columns@),
            rows == rows_view(table.rows@),
            forall|i: int| 0 <= i < table.rows@.len() ==> (#[trigger] table.rows@[i])@ is Object,
            out@ == body + row_lines(cols, rows, r as int),
        decreases table.rows@.len() - r,
    {
        let ghost line_start = out@;
        let ghost row = rows[r as int];
        assert(row == table.rows@[r as int]@->Object_0);
        out.push('|');
        let mut c: usize = 0;
        while c < table.columns.len()
            invariant
                c <= table.columns@.len(),
                r < table.rows@.len(),
                cols == names_view(table.columns@),
                row == table.rows@[r as int]@->Object_0,
                table.rows@[r as int]@ is Object,
                out@ == line_start + seq!['|'] + row_cells(cols, row, c as int),
            decreases table.columns@.len() - c,
        {
            assert(cols[c as int] == table.columns@[c as int]@);
            let ghost before = out@;
            match table.rows[r].get(table.columns[c].as_str()) {
                Some(x) => push_inline_value(out, x, true),
                None => {},
            }
            out.push('|');
            c = c + 1;
            assert(out@ =~= line_start + seq!['|'] + row_cells(cols, row, c as int));
        }
        out.push('\n');
        r = r + 1;
        assert(out@ =~= body + row_lines(cols, rows, r as int));
    }
    assert(out@ =~= start + table_text(cols, rows));
}

/// Appends the rendering of `v` with sections at heading `level`.
fn write_value(out: &mut Vec<char>, v: &JsonValue, level: usize)
    ensures
        final(out)@ == render_value(old(out)@, v@, level),
    decreases *v,
{
    match v {
        JsonValue::Object(fields) => {
            let ghost mv = members_view(fields@, fields@.len() as int);
            proof {
                lemma_members_view(fields@, fields@.len() as int);
            }
            if fields.len() == 0 {
                append_chars(out, chars_of("{}\n").as_slice());
                return;
            }
            let ghost start = out@;
            let mut i: usize = 0;
            while i < fields.len()
                invariant
                    i <= fields@.len(),
                    mv == members_view(fields@, fields@.len() as int),
                    mv.len() == fields@.len(),
                    forall|j: int|
                        0 <= j < fields@.len() ==> #[trigger] mv[j] == (fields@[j].0@, json_view(fields@[j].1)),
                    out@ == start + leaf_lines(mv, i as int),
                decreases fields@.len() - i,
            {
                assert(mv[i as int] == (fields@[i as int].0@, fields@[i as int].1@));
                push_leaf_line(out, fields[i].0.as_str(), &fields[i].1);
                i = i + 1;
                assert(out@ =~= start + leaf_lines(mv, i as int));
            }
            let ghost leaves = out@;
            let ghost n = mv.len() as int;
            let mut p: usize = 0;
            while p < 3
                invariant
                    p <= 3,
                    *v == JsonValue::Object(*fields),
                    v@ == JsonView::Object(mv),
                    mv == members_view(fields@, fields@.len() as int),
                    mv.len() == fields@.len(),
                    n == mv.len(),
                    forall|j: int|
                        0 <= j < fields@.len() ==> #[trigger] mv[j] == (fields@[j].0@, json_view(fields@[j].1)),
                    p == 0 ==> out@ == leaves,
                    p == 1 ==> out@ == render_children(leaves, mv, n, level, 0),
                    p == 2 ==> out@ == render_children(render_children(leaves, mv, n, level, 0), mv, n, level, 1),
                    p == 3 ==> out@ == render_children(
                        render_children(render_children(leaves, mv, n, level, 0), mv, n, level, 1),
                        mv,
                        n,
                        level,
                        2,
                    ),
                decreases 3 - p,
            {
                let ghost pass_start = out@;
                let mut i: usize = 0;
                while i < fields.len()
                    invariant
                        i <= fields@.len(),
                        p < 3,
                        *v == JsonValue::Object(*fields),
                        mv == members_view(fields@, fields@.len() as int),
                        mv.len() == fields@.len(),
                        forall|j: int|
                            0 <= j < fields@.len() ==> #[trigger] mv[j] == (fields@[j].0@, json_view(fields@[j].1)),
                        out@ == render_children(pass_start, mv, i as int, level, p as int),
                    decreases fields@.len() - i,
                {
                    assert(mv[i as int] == (fields@[i as int].0@, fields@[i as int].1@));
                    if child_kind(&fields[i].1) && priority_of(fields[i].0.as_str()) == p {
                        push_blank_line(out);
                        push_heading(out, level, chars_of(fields[i].0.as_str()).as_slice());
                        proof {
                            assert(decreases_to!(*v => (*v)->Object_0));
                            assert(decreases_to!(*fields => fields@));
                            assert(decreases_to!(fields@ => fields@[i as int]));
                            assert(decreases_to!(fields@[i as int] => fields@[i as int].1));
                        }
                        write_value(out, &fields[i].1, deeper_level(level));
                    }
                    i = i + 1;
                }
                p = p + 1;
            }
        },
        JsonValue::Array(items) => {
            let ghost iv = items_view(items@, items@.len() as int);
            proof {
                lemma_items_view(items@, items@.len() as int);
            }
            if items.len() == 0 {
                append_chars(out, chars_of("[]\n").as_slice());
                return;
            }
            match flat_table_of(items) {
                Some(table) => write_table(out, &table),
                None => {
                    if scalars_only(items) {
                        push_inline_value(out, v, false);
                        out.push('\n');
                    } else {
                        let ghost start = out@;
                        let mut i: usize = 0;
                        while i < items.len()
                            invariant
                                i <= items@.len(),
                                *v == JsonValue::Array(*items),
                                iv == items_view(items@, items@.len() as int),
                                iv.len() == items@.len(),
                                forall|j: int| 0 <= j < items@.len() ==> #[trigger] iv[j] == json_view(items@[j]),
                                out@ == render_items(start, iv, i as int, level),
                            decreases items@.len() - i,
                        {
                            assert(iv[i as int] == items@[i as int]@);
                            let number = decimal_chars((i + 1) as u64);
                            if inline_kind(&items[i]) {
                                append_chars(out, number.as_slice());
                                append_chars(out, chars_of(". ").as_slice());
                                push_inline_value(out, &items[i], false);
                                out.push('\n');
                            } else {
                                push_blank_line(out);
                                push_heading(out, level, number.as_slice());
                                proof {
                                    assert(decreases_to!(*v => (*v)->Array_0));
                                    assert(decreases_to!(*items => items@));
                                    assert(decreases_to!(items@ => items@[i as int]));
                                }
                                write_value(out, &items[i], deeper_level(level));
                            }
                            i = i + 1;
                        }
                    }
                },
            }
        },
        _ => {
            push_inline_value(out, v, false);
            out.push('\n');
        },
    }
}

/// The Markdown document of a tool result (see [`render_spec`]).
pub fn render(value: &JsonValue) -> (r: String)
    ensures
        r@ == render_spec(value@),
{
    let mut out: Vec<char> = Vec::new();
    write_value(&mut out, value, 2);
    let mut document = trim_end_char_chars(out.as_slice(), '\n');
    document.push('\n');
    string_from_chars(document.as_slice())
}

} // verus!
