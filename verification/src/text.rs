//! Character-level text utilities shared by the extractors and renderers.
//!
//! Text is handled as a sequence of Unicode scalar values (`Seq<char>`); the
//! executable helpers work on `Vec<char>` buffers whose views are those
//! sequences.
use vstd::prelude::*;

verus! {

// ---------------------------------------------------------------------------
// Character classes from std
// ---------------------------------------------------------------------------
/// Whether a character has the Unicode `White_Space` property (what
/// `char::is_whitespace` reports): tab, line feed, vertical tab, form feed,
/// carriage return, space, next line, no-break space, ogham space mark, the
/// spaces from en quad to hair space, line and paragraph separators, narrow
/// no-break space, medium mathematical space and ideographic space.
pub open spec fn unicode_whitespace(c: char) -> bool {
    let u = c as u32;
    ||| 0x09 <= u <= 0x0D
    ||| u == 0x20
    ||| u == 0x85
    ||| u == 0xA0
    ||| u == 0x1680
    ||| 0x2000 <= u <= 0x200A
    ||| u == 0x2028
    ||| u == 0x2029
    ||| u == 0x202F
    ||| u == 0x205F
    ||| u == 0x3000
}

/// Whether a character outside ASCII is alphabetic or numeric in the
/// Unicode sense (what `char::is_alphanumeric` reports for it).
pub uninterp spec fn non_ascii_alphanumeric(c: char) -> bool;

/// Whether a character is alphabetic or numeric (what
/// `char::is_alphanumeric` reports): among ASCII characters exactly the
/// letters and digits.
pub open spec fn unicode_alphanumeric(c: char) -> bool {
    if (c as u32) < 128 {
        ('a' <= c && c <= 'z') || ('A' <= c && c <= 'Z') || ('0' <= c && c <= '9')
    } else {
        non_ascii_alphanumeric(c)
    }
}

/// The characters of the Unicode lowercase mapping of one character outside
/// ASCII (what `char::to_lowercase` yields for it).
pub uninterp spec fn non_ascii_lowercase(c: char) -> Seq<char>;

/// The characters of the lowercase mapping of one character (what
/// `char::to_lowercase` yields): an ASCII capital letter becomes its small
/// letter, any other ASCII character stays as it is.
pub open spec fn unicode_lowercase(c: char) -> Seq<char> {
    if 'A' <= c && c <= 'Z' {
        seq![((c as u32) + 32) as char]
    } else if (c as u32) < 128 {
        seq![c]
    } else {
        non_ascii_lowercase(c)
    }
}

/// `char::is_whitespace`: whether the character has the `White_Space`
/// property, whose code points [`unicode_whitespace`] lists.
pub(crate) fn char_is_whitespace(c: char) -> (r: bool)
    ensures
        r == unicode_whitespace(c),
{
    let u = c as u32;
    (0x09 <= u && u <= 0x0D) || u == 0x20 || u == 0x85 || u == 0xA0 || u == 0x1680 || (0x2000 <= u && u
        <= 0x200A) || u == 0x2028 || u == 0x2029 || u == 0x202F || u == 0x205F || u == 0x3000
}

/// Calls `char::is_alphanumeric`: the ASCII letters and digits are
/// alphanumeric and no other ASCII character is; outside ASCII the answer is
/// only named.
#[verifier::external_body]
pub(crate) fn char_is_alphanumeric(c: char) -> (r: bool)
    ensures
        r == unicode_alphanumeric(c),
        (c as u32) >= 128 ==> r == non_ascii_alphanumeric(c),
{
    c.is_alphanumeric()
}

/// Collects `char::to_lowercase`: an ASCII capital letter becomes its small
/// letter and every other ASCII character stays; outside ASCII the
/// characters are only named.
#[verifier::external_body]
pub(crate) fn char_to_lowercase(c: char) -> (r: Vec<char>)
    ensures
        r@ == unicode_lowercase(c),
        (c as u32) >= 128 ==> r@ == non_ascii_lowercase(c),
{
    c.to_lowercase().collect()
}

/// The characters of a string in order (`str::chars`).
pub(crate) fn chars_of(s: &str) -> (r: Vec<char>)
    ensures
        r@ == s@,
{
    broadcast use vstd::string::axiom_spec_iter;

    let mut v: Vec<char> = Vec::new();
    for c in it: s.chars()
        invariant
            it.seq() == s@,
            v@ == it.seq().take(it.index()),
    {
        v.push(c);
    }
    v
}

/// Collects characters into a `String` (`FromIterator<char>`).
#[verifier::external_body]
pub(crate) fn string_from_chars(v: &[char]) -> (r: String)
    ensures
        r@ == v@,
{
    v.iter().collect()
}

// ---------------------------------------------------------------------------
// Specifications
// ---------------------------------------------------------------------------
/// Index of the first character at or after `i` that is not whitespace
/// (`s.len()` when there is none).
pub open spec fn first_non_ws_from(s: Seq<char>, i: int) -> int
    decreases s.len() - i,
{
    if i >= s.len() {
        s.len() as int
    } else if unicode_whitespace(s[i]) {
        first_non_ws_from(s, i + 1)
    } else {
        i
    }
}

/// Length of `s.take(j)` once trailing whitespace is removed.
pub open spec fn end_non_ws(s: Seq<char>, j: int) -> int
    decreases j,
{
    if j <= 0 {
        0
    } else if unicode_whitespace(s[j - 1]) {
        end_non_ws(s, j - 1)
    } else {
        j
    }
}

/// `str::trim_start`.
pub open spec fn trim_start(s: Seq<char>) -> Seq<char> {
    s.subrange(first_non_ws_from(s, 0), s.len() as int)
}

/// `str::trim_end`.
pub open spec fn trim_end(s: Seq<char>) -> Seq<char> {
    s.take(end_non_ws(s, s.len() as int))
}

/// `str::trim`.
pub open spec fn trim(s: Seq<char>) -> Seq<char> {
    trim_end(trim_start(s))
}

/// Whether `s` starts with `p`.
pub open spec fn starts_with(s: Seq<char>, p: Seq<char>) -> bool {
    p.len() <= s.len() && s.take(p.len() as int) == p
}

/// Whether `s` ends with `p`.
pub open spec fn ends_with(s: Seq<char>, p: Seq<char>) -> bool {
    p.len() <= s.len() && s.skip(s.len() - p.len()) == p
}

/// Number of occurrences of `c` in `s`.
pub open spec fn count_char(s: Seq<char>, c: char) -> nat
    decreases s.len(),
{
    if s.len() == 0 {
        0
    } else {
        count_char(s.drop_last(), c) + if s.last() == c {
            1nat
        } else {
            0nat
        }
    }
}

/// Index of the first `c` at or after `i`, or -1.
pub open spec fn find_char_from(s: Seq<char>, c: char, i: int) -> int
    decreases s.len() - i,
{
    if i < 0 || i >= s.len() {
        -1
    } else if s[i] == c {
        i
    } else {
        find_char_from(s, c, i + 1)
    }
}

/// Index of the first occurrence of the pair `a b` at or after `i`, or -1.
pub open spec fn find_pair_from(s: Seq<char>, a: char, b: char, i: int) -> int
    decreases s.len() - i,
{
    if i < 0 || i + 1 >= s.len() {
        -1
    } else if s[i] == a && s[i + 1] == b {
        i
    } else {
        find_pair_from(s, a, b, i + 1)
    }
}

/// Number of bytes that a character takes in UTF-8.
pub open spec fn utf8_width(c: char) -> nat {
    if (c as u32) < 0x80 {
        1
    } else if (c as u32) < 0x800 {
        2
    } else if (c as u32) < 0x10000 {
        3
    } else {
        4
    }
}

/// Byte length of the UTF-8 encoding of `s` (`str::len`).
pub open spec fn utf8_len(s: Seq<char>) -> nat
    decreases s.len(),
{
    if s.len() == 0 {
        0
    } else {
        utf8_len(s.drop_last()) + utf8_width(s.last())
    }
}

/// Number of UTF-16 code units that encode `s` (`str::encode_utf16().count()`).
pub open spec fn utf16_len(s: Seq<char>) -> nat
    decreases s.len(),
{
    if s.len() == 0 {
        0
    } else {
        utf16_len(s.drop_last()) + if (s.last() as u32) >= 0x10000 {
            2nat
        } else {
            1nat
        }
    }
}

/// ASCII decimal digit for `d < 10`.
pub open spec fn digit_char(d: nat) -> char {
    if d == 0 {
        '0'
    } else if d == 1 {
        '1'
    } else if d == 2 {
        '2'
    } else if d == 3 {
        '3'
    } else if d == 4 {
        '4'
    } else if d == 5 {
        '5'
    } else if d == 6 {
        '6'
    } else if d == 7 {
        '7'
    } else if d == 8 {
        '8'
    } else {
        '9'
    }
}

/// Decimal representation of a natural number, without sign or leading zeros.
pub open spec fn decimal(n: nat) -> Seq<char>
    decreases n,
{
    if n < 10 {
        seq![digit_char(n)]
    } else {
        decimal(n / 10).push(digit_char(n % 10))
    }
}

/// `s` joined with `sep` between consecutive parts (`[T]::join`).
pub open spec fn join(parts: Seq<Seq<char>>, sep: Seq<char>) -> Seq<char>
    decreases parts.len(),
{
    if parts.len() == 0 {
        Seq::empty()
    } else if parts.len() == 1 {
        parts[0]
    } else {
        join(parts.drop_last(), sep) + sep + parts.last()
    }
}

/// Index of the first character at or after `i` that differs from `c`.
pub open spec fn first_other_from(s: Seq<char>, c: char, i: int) -> int
    decreases s.len() - i,
{
    if i >= s.len() {
        s.len() as int
    } else if s[i] == c {
        first_other_from(s, c, i + 1)
    } else {
        i
    }
}

/// Length of `s.take(j)` once trailing copies of `c` are removed.
pub open spec fn end_other(s: Seq<char>, c: char, j: int) -> int
    decreases j,
{
    if j <= 0 {
        0
    } else if s[j - 1] == c {
        end_other(s, c, j - 1)
    } else {
        j
    }
}

/// `str::trim_end_matches(c)`.
pub open spec fn trim_end_char(s: Seq<char>, c: char) -> Seq<char> {
    s.take(end_other(s, c, s.len() as int))
}

/// Whether a character is `<` or `>`.
pub open spec fn is_angle(c: char) -> bool {
    c == '<' || c == '>'
}

/// Index of the first character at or after `i` that is not `<` or `>`.
pub open spec fn first_non_angle_from(s: Seq<char>, i: int) -> int
    decreases s.len() - i,
{
    if i >= s.len() {
        s.len() as int
    } else if is_angle(s[i]) {
        first_non_angle_from(s, i + 1)
    } else {
        i
    }
}

/// Length of `s.take(j)` once trailing `<` and `>` are removed.
pub open spec fn end_non_angle(s: Seq<char>, j: int) -> int
    decreases j,
{
    if j <= 0 {
        0
    } else if is_angle(s[j - 1]) {
        end_non_angle(s, j - 1)
    } else {
        j
    }
}

/// `str::trim_matches(['<', '>'])`.
pub open spec fn trim_angles(s: Seq<char>) -> Seq<char> {
    let a = first_non_angle_from(s, 0);
    if a >= s.len() {
        Seq::empty()
    } else {
        s.subrange(a, end_non_angle(s, s.len() as int))
    }
}

/// Whether `name` occurs in `s` at index `k`.
pub open spec fn occurs_at(s: Seq<char>, name: Seq<char>, k: int) -> bool {
    0 <= k && k + name.len() <= s.len() && s.subrange(k, k + name.len()) == name
}

/// Index of the first occurrence of `name` at or after `i`, or -1.
pub open spec fn find_seq_from(s: Seq<char>, name: Seq<char>, i: int) -> int
    decreases s.len() + 1 - i,
{
    if i < 0 || i + name.len() > s.len() {
        -1
    } else if occurs_at(s, name, i) {
        i
    } else {
        find_seq_from(s, name, i + 1)
    }
}

/// ASCII lowercase of one character; other characters are unchanged.
pub open spec fn ascii_lower(c: char) -> char {
    if 'A' <= c && c <= 'Z' {
        ((c as u32) + 32) as char
    } else {
        c
    }
}

/// `str::eq_ignore_ascii_case`.
pub open spec fn eq_ignore_ascii_case(a: Seq<char>, b: Seq<char>) -> bool {
    a.len() == b.len() && forall|i: int| 0 <= i < a.len() ==> ascii_lower(a[i]) == ascii_lower(b[i])
}

pub open spec fn is_ascii_digit(c: char) -> bool {
    '0' <= c && c <= '9'
}

/// Value of a string of ASCII digits.
pub open spec fn digits_value(s: Seq<char>) -> nat
    decreases s.len(),
{
    if s.len() == 0 {
        0
    } else {
        digits_value(s.drop_last()) * 10 + ((s.last() as u32) - 48) as nat
    }
}

/// `usize::from_str`: an optional `+` followed by at least one ASCII digit,
/// whose value fits in `usize`.
pub open spec fn all_ascii_digits(d: Seq<char>) -> bool {
    forall|i: int| 0 <= i < d.len() ==> is_ascii_digit(#[trigger] d[i])
}

pub open spec fn unsigned_digits(s: Seq<char>) -> Seq<char> {
    if s.len() > 0 && s[0] == '+' {
        s.drop_first()
    } else {
        s
    }
}

pub open spec fn parse_usize_spec(s: Seq<char>) -> Option<usize> {
    let d = unsigned_digits(s);
    if d.len() == 0 || !all_ascii_digits(d) {
        None
    } else if digits_value(d) > usize::MAX {
        None
    } else {
        Some(digits_value(d) as usize)
    }
}

/// Lexicographic order of character sequences by code point (the order of
/// `String`, whose UTF-8 byte order agrees with code point order).
pub open spec fn seq_lt(a: Seq<char>, b: Seq<char>) -> bool
    decreases a.len(),
{
    if a.len() == 0 {
        b.len() > 0
    } else if b.len() == 0 {
        false
    } else if a[0] < b[0] {
        true
    } else if a[0] > b[0] {
        false
    } else {
        seq_lt(a.drop_first(), b.drop_first())
    }
}

/// No sequence precedes itself.
pub proof fn lemma_seq_lt_irreflexive(a: Seq<char>)
    ensures
        !seq_lt(a, a),
    decreases a.len(),
{
    if a.len() > 0 {
        lemma_seq_lt_irreflexive(a.drop_first());
    }
}

/// The lexicographic order is transitive.
pub proof fn lemma_seq_lt_transitive(a: Seq<char>, b: Seq<char>, c: Seq<char>)
    requires
        seq_lt(a, b),
        seq_lt(b, c),
    ensures
        seq_lt(a, c),
    decreases a.len(),
{
    if a.len() > 0 && b.len() > 0 && c.len() > 0 && a[0] == b[0] && b[0] == c[0] {
        lemma_seq_lt_transitive(a.drop_first(), b.drop_first(), c.drop_first());
    }
}

/// Of two different sequences, one precedes the other.
pub proof fn lemma_seq_lt_total(a: Seq<char>, b: Seq<char>)
    requires
        a != b,
    ensures
        seq_lt(a, b) || seq_lt(b, a),
    decreases a.len(),
{
    if a.len() == 0 {
        if b.len() == 0 {
            assert(a =~= b);
        }
    } else if b.len() > 0 && a[0] == b[0] {
        if a.drop_first() == b.drop_first() {
            assert(a =~= seq![a[0]] + a.drop_first());
            assert(b =~= seq![b[0]] + b.drop_first());
        }
        lemma_seq_lt_total(a.drop_first(), b.drop_first());
    }
}

/// Index of the first character at or after `i` that is `a` or `b`, or -1.
pub open spec fn find_either_from(s: Seq<char>, a: char, b: char, i: int) -> int
    decreases s.len() - i,
{
    if i < 0 || i >= s.len() {
        -1
    } else if s[i] == a || s[i] == b {
        i
    } else {
        find_either_from(s, a, b, i + 1)
    }
}

/// Index of the last `c` before position `j`, or -1.
pub open spec fn last_char_before(s: Seq<char>, c: char, j: int) -> int
    decreases j,
{
    if j <= 0 || j > s.len() {
        -1
    } else if s[j - 1] == c {
        j - 1
    } else {
        last_char_before(s, c, j - 1)
    }
}

/// ASCII lowercase of every character (`str::to_ascii_lowercase`).
pub open spec fn ascii_lowercase(s: Seq<char>) -> Seq<char> {
    s.map_values(|c: char| ascii_lower(c))
}

// ---------------------------------------------------------------------------
// Lemmas
// ---------------------------------------------------------------------------
/// A decimal digit is the ASCII digit worth `d`.
pub proof fn lemma_digit_char_value(d: nat)
    requires
        d < 10,
    ensures
        is_ascii_digit(digit_char(d)),
        digit_char(d) as u32 == d + 48,
{
}

/// The decimal spelling of `n` is a run of ASCII digits worth `n`, so
/// `usize::from_str` reads back every `usize` from it.
pub proof fn lemma_decimal_reads_back(n: nat)
    ensures
        decimal(n).len() > 0,
        all_ascii_digits(decimal(n)),
        digits_value(decimal(n)) == n,
        n <= usize::MAX ==> parse_usize_spec(decimal(n)) == Some(n as usize),
    decreases n,
{
    lemma_digit_char_value(n % 10);
    let s = decimal(n);
    assert(s.last() == digit_char(n % 10));
    if n < 10 {
        assert(s.drop_last() =~= Seq::<char>::empty());
        assert(digits_value(Seq::<char>::empty()) == 0);
    } else {
        lemma_decimal_reads_back(n / 10);
        assert(s.drop_last() =~= decimal(n / 10));
        assert((n / 10) * 10 + n % 10 == n);
        assert forall|i: int| 0 <= i < s.len() implies is_ascii_digit(#[trigger] s[i]) by {
            if i < s.len() - 1 {
                assert(s[i] == decimal(n / 10)[i]);
            }
        }
    }
    assert(unsigned_digits(s) == s);
}

pub proof fn lemma_first_non_ws_bounds(s: Seq<char>, i: int)
    requires
        0 <= i <= s.len(),
    ensures
        i <= first_non_ws_from(s, i) <= s.len(),
        forall|k: int| i <= k < first_non_ws_from(s, i) ==> unicode_whitespace(#[trigger] s[k]),
        first_non_ws_from(s, i) < s.len() ==> !unicode_whitespace(s[first_non_ws_from(s, i)]),
    decreases s.len() - i,
{
    if i < s.len() && unicode_whitespace(s[i]) {
        lemma_first_non_ws_bounds(s, i + 1);
    }
}

pub proof fn lemma_end_non_ws_bounds(s: Seq<char>, j: int)
    requires
        0 <= j <= s.len(),
    ensures
        0 <= end_non_ws(s, j) <= j,
        forall|k: int| end_non_ws(s, j) <= k < j ==> unicode_whitespace(#[trigger] s[k]),
        end_non_ws(s, j) > 0 ==> !unicode_whitespace(s[end_non_ws(s, j) - 1]),
    decreases j,
{
    if j > 0 && unicode_whitespace(s[j - 1]) {
        lemma_end_non_ws_bounds(s, j - 1);
    }
}

pub proof fn lemma_find_char_from_bounds(s: Seq<char>, c: char, i: int)
    requires
        0 <= i,
    ensures
        find_char_from(s, c, i) == -1 || (i <= find_char_from(s, c, i) < s.len() && s[find_char_from(
            s,
            c,
            i,
        )] == c),
        forall|k: int|
            i <= k < s.len() && (find_char_from(s, c, i) == -1 || k < find_char_from(s, c, i))
                ==> #[trigger] s[k] != c,
    decreases s.len() - i,
{
    if i < s.len() && s[i] != c {
        lemma_find_char_from_bounds(s, c, i + 1);
    }
}

pub proof fn lemma_find_pair_from_bounds(s: Seq<char>, a: char, b: char, i: int)
    requires
        0 <= i,
    ensures
        find_pair_from(s, a, b, i) == -1 || (i <= find_pair_from(s, a, b, i) && find_pair_from(
            s,
            a,
            b,
            i,
        ) + 1 < s.len()),
    decreases s.len() - i,
{
    if i + 1 < s.len() && !(s[i] == a && s[i + 1] == b) {
        lemma_find_pair_from_bounds(s, a, b, i + 1);
    }
}

pub proof fn lemma_utf8_len_append(a: Seq<char>, b: Seq<char>)
    ensures
        utf8_len(a + b) == utf8_len(a) + utf8_len(b),
    decreases b.len(),
{
    if b.len() == 0 {
        assert(a + b =~= a);
    } else {
        lemma_utf8_len_append(a, b.drop_last());
        assert((a + b).drop_last() =~= a + b.drop_last());
    }
}

pub proof fn lemma_utf8_len_at_least_len(s: Seq<char>)
    ensures
        utf8_len(s) >= s.len(),
    decreases s.len(),
{
    if s.len() > 0 {
        lemma_utf8_len_at_least_len(s.drop_last());
    }
}

pub proof fn lemma_utf8_len_prefix_monotone(s: Seq<char>, i: int, j: int)
    requires
        0 <= i <= j <= s.len(),
    ensures
        utf8_len(s.take(i)) <= utf8_len(s.take(j)),
    decreases j - i,
{
    if i < j {
        lemma_utf8_len_prefix_monotone(s, i, j - 1);
        assert(s.take(j).drop_last() =~= s.take(j - 1));
    }
}

pub proof fn lemma_utf8_len_subrange_le(s: Seq<char>, i: int, j: int)
    requires
        0 <= i <= j <= s.len(),
    ensures
        utf8_len(s.subrange(i, j)) <= utf8_len(s),
{
    lemma_utf8_len_append(s.take(i), s.subrange(i, j));
    lemma_utf8_len_append(s.take(j), s.skip(j));
    assert(s.take(i) + s.subrange(i, j) =~= s.take(j));
    assert(s.take(j) + s.skip(j) =~= s);
}

pub proof fn lemma_count_char_append(a: Seq<char>, b: Seq<char>, c: char)
    ensures
        count_char(a + b, c) == count_char(a, c) + count_char(b, c),
    decreases b.len(),
{
    if b.len() == 0 {
        assert(a + b =~= a);
    } else {
        lemma_count_char_append(a, b.drop_last(), c);
        assert((a + b).drop_last() =~= a + b.drop_last());
    }
}

pub proof fn lemma_first_other_bounds(s: Seq<char>, c: char, i: int)
    requires
        0 <= i <= s.len(),
    ensures
        i <= first_other_from(s, c, i) <= s.len(),
        forall|k: int| i <= k < first_other_from(s, c, i) ==> #[trigger] s[k] == c,
        first_other_from(s, c, i) < s.len() ==> s[first_other_from(s, c, i)] != c,
    decreases s.len() - i,
{
    if i < s.len() && s[i] == c {
        lemma_first_other_bounds(s, c, i + 1);
    }
}

pub proof fn lemma_end_other_bounds(s: Seq<char>, c: char, j: int)
    requires
        0 <= j <= s.len(),
    ensures
        0 <= end_other(s, c, j) <= j,
    decreases j,
{
    if j > 0 && s[j - 1] == c {
        lemma_end_other_bounds(s, c, j - 1);
    }
}

pub proof fn lemma_first_non_angle_bounds(s: Seq<char>, i: int)
    requires
        0 <= i <= s.len(),
    ensures
        i <= first_non_angle_from(s, i) <= s.len(),
        first_non_angle_from(s, i) < s.len() ==> !is_angle(s[first_non_angle_from(s, i)]),
    decreases s.len() - i,
{
    if i < s.len() && is_angle(s[i]) {
        lemma_first_non_angle_bounds(s, i + 1);
    }
}

pub proof fn lemma_end_non_angle_bounds(s: Seq<char>, j: int, a: int)
    requires
        0 <= a < j <= s.len(),
        !is_angle(s[a]),
    ensures
        a < end_non_angle(s, j) <= j,
    decreases j,
{
    if j > 0 && is_angle(s[j - 1]) {
        lemma_end_non_angle_bounds(s, j - 1, a);
    }
}

pub proof fn lemma_find_seq_from_bounds(s: Seq<char>, name: Seq<char>, i: int)
    ensures
        find_seq_from(s, name, i) == -1 || (i <= find_seq_from(s, name, i) && occurs_at(
            s,
            name,
            find_seq_from(s, name, i),
        )),
    decreases s.len() + 1 - i,
{
    if !(i < 0 || i + name.len() > s.len()) && !occurs_at(s, name, i) {
        lemma_find_seq_from_bounds(s, name, i + 1);
    }
}

pub proof fn lemma_utf16_len_at_least(s: Seq<char>)
    ensures
        utf16_len(s) >= s.len(),
    decreases s.len(),
{
    if s.len() > 0 {
        lemma_utf16_len_at_least(s.drop_last());
    }
}

// ---------------------------------------------------------------------------
// Executable helpers
// ---------------------------------------------------------------------------
/// Index of the first non-whitespace character at or after `i`.
pub fn skip_whitespace(s: &[char], i: usize) -> (r: usize)
    requires
        i <= s@.len(),
    ensures
        r == first_non_ws_from(s@, i as int),
{
    let mut k = i;
    while k < s.len()
        invariant
            i <= k <= s@.len(),
            first_non_ws_from(s@, i as int) == first_non_ws_from(s@, k as int),
        decreases s@.len() - k,
    {
        if !char_is_whitespace(s[k]) {
            return k;
        }
        k = k + 1;
    }
    k
}

/// Length of `s.take(j)` once trailing whitespace is removed.
pub fn end_without_whitespace(s: &[char], j: usize) -> (r: usize)
    requires
        j <= s@.len(),
    ensures
        r == end_non_ws(s@, j as int),
{
    let mut k = j;
    while k > 0
        invariant
            k <= j <= s@.len(),
            end_non_ws(s@, j as int) == end_non_ws(s@, k as int),
        decreases k,
    {
        if !char_is_whitespace(s[k - 1]) {
            return k;
        }
        k = k - 1;
    }
    k
}

/// Copies `s[from..to]`.
pub fn copy_range(s: &[char], from: usize, to: usize) -> (r: Vec<char>)
    requires
        from <= to <= s@.len(),
    ensures
        r@ == s@.subrange(from as int, to as int),
{
    let mut r: Vec<char> = Vec::new();
    let mut k = from;
    while k < to
        invariant
            from <= k <= to <= s@.len(),
            r@ == s@.subrange(from as int, k as int),
        decreases to - k,
    {
        r.push(s[k]);
        k = k + 1;
        assert(r@ =~= s@.subrange(from as int, k as int));
    }
    r
}

/// `str::trim_start`.
pub fn trim_start_chars(s: &[char]) -> (r: Vec<char>)
    ensures
        r@ == trim_start(s@),
{
    proof {
        lemma_first_non_ws_bounds(s@, 0);
    }
    let start = skip_whitespace(s, 0);
    copy_range(s, start, s.len())
}

/// `str::trim`.
pub fn trim_chars(s: &[char]) -> (r: Vec<char>)
    ensures
        r@ == trim(s@),
{
    let t = trim_start_chars(s);
    let end = end_without_whitespace(t.as_slice(), t.len());
    proof {
        lemma_end_non_ws_bounds(t@, t@.len() as int);
    }
    copy_range(t.as_slice(), 0, end)
}

/// Appends all of `b` to `a`.
pub fn append_chars(a: &mut Vec<char>, b: &[char])
    ensures
        final(a)@ == old(a)@ + b@,
{
    let mut k: usize = 0;
    while k < b.len()
        invariant
            k <= b@.len(),
            a@ == old(a)@ + b@.take(k as int),
        decreases b@.len() - k,
    {
        a.push(b[k]);
        k = k + 1;
        assert(a@ =~= old(a)@ + b@.take(k as int));
    }
    assert(b@.take(b@.len() as int) =~= b@);
}

/// Whether two character buffers hold the same text.
pub fn chars_equal(a: &[char], b: &[char]) -> (r: bool)
    ensures
        r == (a@ == b@),
{
    if a.len() != b.len() {
        return false;
    }
    let mut k: usize = 0;
    while k < a.len()
        invariant
            k <= a@.len() == b@.len(),
            forall|j: int| 0 <= j < k ==> a@[j] == b@[j],
        decreases a@.len() - k,
    {
        if a[k] != b[k] {
            return false;
        }
        k = k + 1;
    }
    assert(a@ =~= b@);
    true
}

/// Whether `s` starts with `p`.
pub fn starts_with_chars(s: &[char], p: &[char]) -> (r: bool)
    ensures
        r == starts_with(s@, p@),
{
    if p.len() > s.len() {
        return false;
    }
    let mut k: usize = 0;
    while k < p.len()
        invariant
            k <= p@.len() <= s@.len(),
            forall|j: int| 0 <= j < k ==> s@[j] == p@[j],
        decreases p@.len() - k,
    {
        if s[k] != p[k] {
            assert(s@.take(p@.len() as int)[k as int] != p@[k as int]);
            return false;
        }
        k = k + 1;
    }
    assert(s@.take(p@.len() as int) =~= p@);
    true
}

/// Whether `s` ends with `p`.
pub fn ends_with_chars(s: &[char], p: &[char]) -> (r: bool)
    ensures
        r == ends_with(s@, p@),
{
    if p.len() > s.len() {
        return false;
    }
    let off = s.len() - p.len();
    let mut k: usize = 0;
    while k < p.len()
        invariant
            k <= p@.len() <= s@.len(),
            s@.len() <= usize::MAX,
            off == s@.len() - p@.len(),
            forall|j: int| 0 <= j < k ==> s@[off + j] == p@[j],
        decreases p@.len() - k,
    {
        if s[off + k] != p[k] {
            assert(s@.skip(off as int)[k as int] != p@[k as int]);
            return false;
        }
        k = k + 1;
    }
    assert(s@.skip(off as int) =~= p@);
    true
}

/// Index of the first `c` at or after `i`, or `None`.
pub fn find_char(s: &[char], c: char, i: usize) -> (r: Option<usize>)
    ensures
        match r {
            Some(k) => k as int == find_char_from(s@, c, i as int) && k < s@.len(),
            None => find_char_from(s@, c, i as int) == -1,
        },
{
    let mut k = i;
    while k < s.len()
        invariant
            i <= k,
            find_char_from(s@, c, i as int) == find_char_from(s@, c, k as int),
        decreases s@.len() - k,
    {
        if s[k] == c {
            return Some(k);
        }
        k = k + 1;
    }
    None
}

/// Index of the first pair `a b` at or after `i`, or `None`.
pub fn find_pair(s: &[char], a: char, b: char, i: usize) -> (r: Option<usize>)
    ensures
        match r {
            Some(k) => k as int == find_pair_from(s@, a, b, i as int) && k + 1 < s@.len(),
            None => find_pair_from(s@, a, b, i as int) == -1,
        },
{
    let mut k = i;
    while k < s.len() && k + 1 < s.len()
        invariant
            i <= k,
            find_pair_from(s@, a, b, i as int) == find_pair_from(s@, a, b, k as int),
        decreases s@.len() - k,
    {
        if s[k] == a && s[k + 1] == b {
            return Some(k);
        }
        k = k + 1;
    }
    None
}

/// Number of occurrences of `c` in `s.take(end)`.
pub fn count_char_prefix(s: &[char], c: char, end: usize) -> (r: usize)
    requires
        end <= s@.len(),
    ensures
        r == count_char(s@.take(end as int), c),
{
    let mut n: usize = 0;
    let mut k: usize = 0;
    while k < end
        invariant
            k <= end <= s@.len(),
            n == count_char(s@.take(k as int), c),
            n <= k,
        decreases end - k,
    {
        assert(s@.take(k + 1).drop_last() =~= s@.take(k as int));
        if s[k] == c {
            n = n + 1;
        }
        k = k + 1;
    }
    n
}

/// UTF-8 byte width of a character (`char::len_utf8`).
pub fn char_utf8_width(c: char) -> (r: usize)
    ensures
        r == utf8_width(c),
        1 <= r <= 4,
{
    let v = c as u32;
    if v < 0x80 {
        1
    } else if v < 0x800 {
        2
    } else if v < 0x10000 {
        3
    } else {
        4
    }
}

/// Byte length of the UTF-8 encoding of `s` (`str::len`).
pub fn chars_utf8_len(s: &[char]) -> (r: u64)
    requires
        s@.len() <= 0x1000_0000_0000,
    ensures
        r == utf8_len(s@),
{
    let mut n: u64 = 0;
    let mut k: usize = 0;
    while k < s.len()
        invariant
            k <= s@.len() <= 0x1000_0000_0000,
            n == utf8_len(s@.take(k as int)),
            n <= 4 * k,
        decreases s@.len() - k,
    {
        assert(s@.take(k + 1).drop_last() =~= s@.take(k as int));
        n = n + char_utf8_width(s[k]) as u64;
        k = k + 1;
    }
    assert(s@.take(s@.len() as int) =~= s@);
    n
}

/// Number of UTF-16 code units of `s.take(end)`.
pub fn chars_utf16_len(s: &[char], end: usize) -> (r: u64)
    requires
        end <= s@.len(),
        end <= 0x1000_0000_0000,
    ensures
        r == utf16_len(s@.take(end as int)),
{
    let mut n: u64 = 0;
    let mut k: usize = 0;
    while k < end
        invariant
            k <= end <= s@.len(),
            end <= 0x1000_0000_0000,
            n == utf16_len(s@.take(k as int)),
            n <= 2 * k,
        decreases end - k,
    {
        assert(s@.take(k + 1).drop_last() =~= s@.take(k as int));
        if (s[k] as u32) >= 0x10000 {
            n = n + 2;
        } else {
            n = n + 1;
        }
        k = k + 1;
    }
    n
}

/// ASCII decimal digit of `d < 10`.
pub fn digit(d: u64) -> (r: char)
    requires
        d < 10,
    ensures
        r == digit_char(d as nat),
{
    if d == 0 {
        '0'
    } else if d == 1 {
        '1'
    } else if d == 2 {
        '2'
    } else if d == 3 {
        '3'
    } else if d == 4 {
        '4'
    } else if d == 5 {
        '5'
    } else if d == 6 {
        '6'
    } else if d == 7 {
        '7'
    } else if d == 8 {
        '8'
    } else {
        '9'
    }
}

/// Decimal representation of `n` (`u64::to_string`).
pub fn decimal_chars(n: u64) -> (r: Vec<char>)
    ensures
        r@ == decimal(n as nat),
    decreases n,
{
    if n < 10 {
        let mut v: Vec<char> = Vec::new();
        v.push(digit(n));
        assert(v@ =~= seq![digit_char(n as nat)]);
        v
    } else {
        let mut v = decimal_chars(n / 10);
        v.push(digit(n % 10));
        v
    }
}

/// Index of the first character at or after `i` that differs from `c`.
pub fn skip_char(s: &[char], c: char, i: usize) -> (r: usize)
    requires
        i <= s@.len(),
    ensures
        r == first_other_from(s@, c, i as int),
{
    let mut k = i;
    while k < s.len()
        invariant
            i <= k <= s@.len(),
            first_other_from(s@, c, i as int) == first_other_from(s@, c, k as int),
        decreases s@.len() - k,
    {
        if s[k] != c {
            return k;
        }
        k = k + 1;
    }
    k
}

/// `str::trim_end_matches(c)`.
pub fn trim_end_char_chars(s: &[char], c: char) -> (r: Vec<char>)
    ensures
        r@ == trim_end_char(s@, c),
{
    let mut k = s.len();
    while k > 0 && s[k - 1] == c
        invariant
            k <= s@.len(),
            end_other(s@, c, s@.len() as int) == end_other(s@, c, k as int),
        decreases k,
    {
        k = k - 1;
    }
    copy_range(s, 0, k)
}

/// `str::trim_matches(['<', '>'])`.
pub fn trim_angles_chars(s: &[char]) -> (r: Vec<char>)
    ensures
        r@ == trim_angles(s@),
{
    let mut a: usize = 0;
    while a < s.len() && (s[a] == '<' || s[a] == '>')
        invariant
            a <= s@.len(),
            first_non_angle_from(s@, 0) == first_non_angle_from(s@, a as int),
        decreases s@.len() - a,
    {
        a = a + 1;
    }
    if a >= s.len() {
        return Vec::new();
    }
    let mut b = s.len();
    while b > 0 && (s[b - 1] == '<' || s[b - 1] == '>')
        invariant
            b <= s@.len(),
            end_non_angle(s@, s@.len() as int) == end_non_angle(s@, b as int),
        decreases b,
    {
        b = b - 1;
    }
    proof {
        lemma_end_non_angle_bounds(s@, s@.len() as int, a as int);
    }
    copy_range(s, a, b)
}

/// Index of the first occurrence of `name` at or after `i`.
pub fn find_seq(s: &[char], name: &[char], i: usize) -> (r: Option<usize>)
    ensures
        match r {
            Some(k) => k as int == find_seq_from(s@, name@, i as int),
            None => find_seq_from(s@, name@, i as int) == -1,
        },
{
    let n = name.len();
    let len = s.len();
    let mut k = i;
    while k <= len && n <= len - k
        invariant
            i <= k,
            n == name@.len(),
            len == s@.len(),
            find_seq_from(s@, name@, i as int) == find_seq_from(s@, name@, k as int),
        decreases len + 1 - k,
    {
        let mut j: usize = 0;
        while j < n && s[k + j] == name[j]
            invariant
                j <= n == name@.len(),
                k + n <= len == s@.len(),
                forall|m: int| 0 <= m < j ==> s@[k + m] == name@[m],
            decreases n - j,
        {
            j = j + 1;
        }
        if j == n {
            assert(s@.subrange(k as int, k + n) =~= name@);
            return Some(k);
        }
        assert(s@.subrange(k as int, k + n)[j as int] != name@[j as int]);
        k = k + 1;
    }
    None
}

/// `str::eq_ignore_ascii_case`.
pub fn chars_eq_ignore_ascii_case(a: &[char], b: &[char]) -> (r: bool)
    ensures
        r == eq_ignore_ascii_case(a@, b@),
{
    if a.len() != b.len() {
        return false;
    }
    let mut i: usize = 0;
    while i < a.len()
        invariant
            i <= a@.len() == b@.len(),
            forall|j: int| 0 <= j < i ==> ascii_lower(a@[j]) == ascii_lower(b@[j]),
        decreases a@.len() - i,
    {
        if to_ascii_lower(a[i]) != to_ascii_lower(b[i]) {
            return false;
        }
        i = i + 1;
    }
    true
}

/// ASCII lowercase of one character.
pub fn to_ascii_lower(c: char) -> (r: char)
    ensures
        r == ascii_lower(c),
{
    if 'A' <= c && c <= 'Z' {
        let v = (c as u32) + 32;
        assert(v < 0xD800);
        char_from_ascii(v)
    } else {
        c
    }
}

/// The character of an ASCII code.
pub fn char_from_ascii(v: u32) -> (r: char)
    requires
        v < 0x80,
    ensures
        r == v as char,
{
    let b = v as u8;
    b as char
}

proof fn lemma_digits_value_bound(s: Seq<char>)
    requires
        forall|i: int| 0 <= i < s.len() ==> is_ascii_digit(#[trigger] s[i]),
    ensures
        digits_value(s) >= 0,
{
}

/// `usize::from_str` on a character buffer.
pub fn parse_usize(s: &[char]) -> (r: Option<usize>)
    ensures
        r == parse_usize_spec(s@),
{
    let start: usize = if s.len() > 0 && s[0] == '+' {
        1
    } else {
        0
    };
    let ghost d = unsigned_digits(s@);
    assert(d =~= s@.skip(start as int));
    if start == s.len() {
        return None;
    }
    let mut value: usize = 0;
    let mut k = start;
    while k < s.len()
        invariant
            start <= k <= s@.len(),
            d == unsigned_digits(s@),
            d =~= s@.skip(start as int),
            forall|i: int| 0 <= i < k - start ==> is_ascii_digit(#[trigger] d[i]),
            value as nat == digits_value(d.take(k - start)),
        decreases s@.len() - k,
    {
        let c = s[k];
        assert(d[k - start] == s@[k as int]);
        if !('0' <= c && c <= '9') {
            assert(!is_ascii_digit(d[k - start]));
            assert(!all_ascii_digits(d));
            return None;
        }
        assert(d.take(k - start + 1).drop_last() =~= d.take(k - start));
        let digit_value = ((c as u32) - 48) as usize;
        if value > (usize::MAX - digit_value) / 10 {
            // The remaining digits can only make the value larger.
            proof {
                lemma_digits_value_prefix(d, k - start + 1);
                assert(digits_value(d.take(k - start + 1)) > usize::MAX) by (nonlinear_arith)
                    requires
                        digits_value(d.take(k - start + 1)) == value * 10 + digit_value,
                        value > (usize::MAX - digit_value) / 10,
                        digit_value <= 9,
                ;
            }
            if all_digits(s, k + 1) {
                proof {
                    assert forall|i: int| 0 <= i < d.len() implies is_ascii_digit(#[trigger] d[i]) by {
                        if i >= k - start + 1 {
                            assert(s@[start + i] == d[i]);
                        }
                    }
                    assert(all_ascii_digits(d));
                    lemma_digits_value_prefix_le(d, k - start + 1);
                    assert(d.take(d.len() as int) =~= d);
                }
            } else {
                proof {
                    let i = choose|i: int| k + 1 <= i < s@.len() && !is_ascii_digit(#[trigger] s@[i]);
                    assert(d[i - start] == s@[i]);
                    assert(!all_ascii_digits(d));
                }
            }
            return None;
        }
        value = value * 10 + digit_value;
        k = k + 1;
    }
    assert(d.take(d.len() as int) =~= d);
    Some(value)
}

/// Whether `s[from..]` holds only ASCII digits.
fn all_digits(s: &[char], from: usize) -> (r: bool)
    ensures
        r == forall|i: int| from <= i < s@.len() ==> is_ascii_digit(#[trigger] s@[i]),
{
    let mut k = from;
    while k < s.len()
        invariant
            from <= k,
            forall|i: int| from <= i < k && i < s@.len() ==> is_ascii_digit(#[trigger] s@[i]),
        decreases s@.len() - k,
    {
        if !('0' <= s[k] && s[k] <= '9') {
            return false;
        }
        k = k + 1;
    }
    true
}

proof fn lemma_digits_value_prefix(d: Seq<char>, n: int)
    requires
        0 < n <= d.len(),
    ensures
        digits_value(d.take(n)) == digits_value(d.take(n - 1)) * 10 + ((d[n - 1] as u32) - 48) as nat,
{
    assert(d.take(n).drop_last() =~= d.take(n - 1));
}

proof fn lemma_digits_value_prefix_le(d: Seq<char>, n: int)
    requires
        0 <= n <= d.len(),
        forall|i: int| 0 <= i < d.len() ==> is_ascii_digit(#[trigger] d[i]),
    ensures
        digits_value(d.take(n)) <= digits_value(d),
    decreases d.len() - n,
{
    if n < d.len() {
        lemma_digits_value_prefix_le(d, n + 1);
        lemma_digits_value_prefix(d, n + 1);
        assert(digits_value(d.take(n)) <= digits_value(d.take(n + 1))) by (nonlinear_arith)
            requires
                digits_value(d.take(n + 1)) == digits_value(d.take(n)) * 10 + ((d[n] as u32) - 48) as nat,
        ;
    } else {
        assert(d.take(n) =~= d);
    }
}

/// Lexicographic `<` of two character buffers.
pub fn chars_lt(a: &[char], b: &[char]) -> (r: bool)
    ensures
        r == seq_lt(a@, b@),
{
    let mut i: usize = 0;
    assert(a@.skip(0) =~= a@);
    assert(b@.skip(0) =~= b@);
    while i < a.len() && i < b.len() && a[i] == b[i]
        invariant
            i <= a@.len(),
            i <= b@.len(),
            seq_lt(a@, b@) == seq_lt(a@.skip(i as int), b@.skip(i as int)),
        decreases a@.len() - i,
    {
        assert(a@.skip(i as int).drop_first() =~= a@.skip(i + 1));
        assert(b@.skip(i as int).drop_first() =~= b@.skip(i + 1));
        assert(a@.skip(i as int)[0] == a@[i as int]);
        assert(b@.skip(i as int)[0] == b@[i as int]);
        i = i + 1;
    }
    if i == a.len() {
        return i < b.len();
    }
    if i == b.len() {
        return false;
    }
    assert(a@.skip(i as int)[0] == a@[i as int]);
    assert(b@.skip(i as int)[0] == b@[i as int]);
    a[i] < b[i]
}

/// Whether two strings hold the same text.
pub fn str_eq(a: &str, b: &str) -> (r: bool)
    ensures
        r == (a@ == b@),
{
    chars_equal(chars_of(a).as_slice(), chars_of(b).as_slice())
}

/// Index of the first `a` or `b` at or after `i`, or `None`.
pub fn find_either(s: &[char], a: char, b: char, i: usize) -> (r: Option<usize>)
    ensures
        match r {
            Some(k) => k as int == find_either_from(s@, a, b, i as int) && i <= k < s@.len(),
            None => find_either_from(s@, a, b, i as int) == -1,
        },
{
    let mut k = i;
    while k < s.len()
        invariant
            i <= k,
            find_either_from(s@, a, b, i as int) == find_either_from(s@, a, b, k as int),
        decreases s@.len() - k,
    {
        if s[k] == a || s[k] == b {
            return Some(k);
        }
        k = k + 1;
    }
    None
}

/// Position just after the last `c` in `s`, or 0 when there is none.
pub fn after_last_char(s: &[char], c: char) -> (r: usize)
    ensures
        r as int == last_char_before(s@, c, s@.len() as int) + 1,
        r <= s@.len(),
{
    let mut j = s.len();
    while j > 0 && s[j - 1] != c
        invariant
            j <= s@.len(),
            last_char_before(s@, c, s@.len() as int) == last_char_before(s@, c, j as int),
        decreases j,
    {
        j = j - 1;
    }
    j
}

/// `str::to_ascii_lowercase` on a character buffer.
pub fn ascii_lowercase_chars(s: &[char]) -> (r: Vec<char>)
    ensures
        r@ == ascii_lowercase(s@),
{
    let mut r: Vec<char> = Vec::new();
    let mut i: usize = 0;
    while i < s.len()
        invariant
            i <= s@.len(),
            r@ == ascii_lowercase(s@.take(i as int)),
        decreases s@.len() - i,
    {
        r.push(to_ascii_lower(s[i]));
        i = i + 1;
        assert(r@ =~= ascii_lowercase(s@.take(i as int)));
    }
    assert(s@.take(s@.len() as int) =~= s@);
    r
}

} // verus!
