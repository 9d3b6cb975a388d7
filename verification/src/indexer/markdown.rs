//! Small deterministic Markdown section extractor.
//!
//! Documentation headings remain a deliberately small surface: the extractor
//! records ATX headings, their lexical hierarchy, bounded section text, and
//! same-document anchor links. It does not try to become a general Markdown
//! renderer or a semantic parser for tables, images, or prose.
use vstd::prelude::*;

use crate::text::{
    append_chars, char_is_alphanumeric, char_is_whitespace, char_to_lowercase, chars_of,
    copy_range, count_char, count_char_prefix, decimal, decimal_chars, find_char,
    find_char_from, find_pair, find_pair_from, first_other_from, join, lemma_find_char_from_bounds,
    lemma_first_other_bounds, skip_char, string_from_chars, trim, trim_angles, trim_angles_chars,
    trim_chars, trim_end_char, trim_end_char_chars, trim_start, trim_start_chars, unicode_alphanumeric,
    unicode_lowercase, unicode_whitespace, utf8_len, chars_utf8_len, char_utf8_width,
};
use crate::types::{
    edges_view, make_node_id, node_id, nodes_view, opt_view, CodeEdge, CodeNode,
    EdgeKind, EdgeView, Language, NodeKind, NodeView,
};

verus! {

/// Longest indexed section body, in UTF-8 bytes, before truncation.
const MAX_INDEXED_SECTION_BODY_LEN: usize = 4096;

/// Heading and relationship facts of one Markdown document.
pub struct MarkdownExtraction {
    pub nodes: Vec<CodeNode>,
    pub edges: Vec<CodeEdge>,
}

// ---------------------------------------------------------------------------
// Specification of the extraction
// ---------------------------------------------------------------------------
pub open spec fn seqs_view(v: Seq<Vec<char>>) -> Seq<Seq<char>> {
    v.map_values(|x: Vec<char>| x@)
}

/// Removes one trailing carriage return.
pub open spec fn strip_cr(s: Seq<char>) -> Seq<char> {
    if s.len() > 0 && s.last() == '\r' {
        s.drop_last()
    } else {
        s
    }
}

/// The lines of `s[start..]` as `str::lines` yields them.
pub open spec fn lines_from(s: Seq<char>, start: int) -> Seq<Seq<char>>
    decreases s.len() - start,
{
    if start < 0 || start >= s.len() {
        Seq::empty()
    } else {
        let k = find_char_from(s, '\n', start);
        proof {
            lemma_find_char_from_bounds(s, '\n', start);
        }
        if k < start {
            seq![s.subrange(start, s.len() as int)]
        } else {
            seq![strip_cr(s.subrange(start, k))] + lines_from(s, k + 1)
        }
    }
}

/// `str::lines`: split at `\n`, drop a `\r` before it, no final empty line.
pub open spec fn lines_of(s: Seq<char>) -> Seq<Seq<char>> {
    lines_from(s, 0)
}

/// A (left-trimmed) line that opens or closes a fenced code block.
pub open spec fn is_fence_spec(t: Seq<char>) -> bool {
    t.len() >= 3 && ((t[0] == '`' && t[1] == '`' && t[2] == '`') || (t[0] == '~' && t[1] == '~'
        && t[2] == '~'))
}

pub open spec fn fence_line(l: Seq<char>) -> bool {
    is_fence_spec(trim_start(l))
}

/// Number of fence lines among the first `i` lines.
pub open spec fn fence_count(lines: Seq<Seq<char>>, i: int) -> nat
    decreases i,
{
    if i <= 0 {
        0
    } else {
        fence_count(lines, i - 1) + if fence_line(lines[i - 1]) {
            1nat
        } else {
            0nat
        }
    }
}

/// Whether line `i` lies inside a fenced code block.
pub open spec fn in_fence(lines: Seq<Seq<char>>, i: int) -> bool {
    fence_count(lines, i) % 2 == 1
}

/// The level and title of a (left-trimmed) ATX heading line.
pub open spec fn atx_heading_spec(t: Seq<char>) -> Option<(nat, Seq<char>)> {
    let mc = first_other_from(t, '#', 0);
    if mc <= 0 || mc > 6 {
        None
    } else {
        let rest = t.subrange(mc, t.len() as int);
        if rest.len() == 0 || !unicode_whitespace(rest[0]) {
            None
        } else {
            let title = trim(trim_end_char(trim(rest), '#'));
            if title.len() == 0 {
                None
            } else {
                Some((mc as nat, title))
            }
        }
    }
}

/// A heading found in a document: its level, title, 1-based line and the
/// UTF-8 byte length of its source line.
pub struct HeadingSpec {
    pub level: nat,
    pub title: Seq<char>,
    pub line: int,
    pub width: nat,
}

/// The heading on line `i`, if that line is an ATX heading outside fences.
pub open spec fn heading_at(lines: Seq<Seq<char>>, i: int) -> Option<HeadingSpec> {
    if fence_line(lines[i]) || in_fence(lines, i) {
        None
    } else {
        match atx_heading_spec(trim_start(lines[i])) {
            Some((level, title)) => Some(
                HeadingSpec { level, title, line: i + 1, width: utf8_len(lines[i]) },
            ),
            None => None,
        }
    }
}

/// The headings of the first `n` lines, in line order.
pub open spec fn headings_upto(lines: Seq<Seq<char>>, n: int) -> Seq<HeadingSpec>
    decreases n,
{
    if n <= 0 {
        Seq::empty()
    } else {
        let prev = headings_upto(lines, n - 1);
        match heading_at(lines, n - 1) {
            Some(h) => prev.push(h),
            None => prev,
        }
    }
}

pub open spec fn headings_of(lines: Seq<Seq<char>>) -> Seq<HeadingSpec> {
    headings_upto(lines, lines.len() as int)
}

/// The line before the next heading (after `i`) of the same or a higher
/// level, or the number of lines.
pub open spec fn boundary_from(hs: Seq<HeadingSpec>, n_lines: int, i: int, j: int) -> int
    decreases hs.len() - j,
{
    if j < 0 || j >= hs.len() {
        n_lines
    } else if hs[j].level <= hs[i].level {
        hs[j].line - 1
    } else {
        boundary_from(hs, n_lines, i, j + 1)
    }
}

/// Last line of the section that heading `i` opens.
pub open spec fn section_end(hs: Seq<HeadingSpec>, n_lines: int, i: int) -> int {
    let b = boundary_from(hs, n_lines, i, i + 1);
    if b >= hs[i].line {
        b
    } else {
        hs[i].line
    }
}

/// Length of the longest prefix of `s` that fits in `max` UTF-8 bytes.
pub open spec fn fit_prefix(s: Seq<char>, max: nat, k: int) -> int
    decreases s.len() - k,
{
    if k < 0 || k >= s.len() {
        k
    } else if utf8_len(s.take(k + 1)) <= max {
        fit_prefix(s, max, k + 1)
    } else {
        k
    }
}

/// The trimmed text of lines `start..end` (0-based), truncated at a character
/// boundary to 4096 bytes and then marked with `...`.
pub open spec fn section_body(lines: Seq<Seq<char>>, start: int, end: int) -> Option<Seq<char>> {
    let text = trim(join(lines.subrange(start, end), seq!['\n']));
    if text.len() == 0 {
        None
    } else if utf8_len(text) <= 4096 {
        Some(text)
    } else {
        Some(text.take(fit_prefix(text, 4096, 0)) + seq!['.', '.', '.'])
    }
}

/// The last heading before `i` whose level is lower than that of `i`, or -1.
pub open spec fn parent_search(hs: Seq<HeadingSpec>, i: int, j: int) -> int
    decreases j,
{
    if j <= 0 {
        -1
    } else if hs[j - 1].level < hs[i].level {
        j - 1
    } else {
        parent_search(hs, i, j - 1)
    }
}

pub open spec fn parent_of(hs: Seq<HeadingSpec>, i: int) -> int {
    parent_search(hs, i, i)
}

/// `Parent > Child` path of heading `i`.
pub open spec fn qualified_name_of(hs: Seq<HeadingSpec>, i: int) -> Seq<char>
    decreases i,
{
    if i < 0 {
        Seq::empty()
    } else {
        let p = parent_of(hs, i);
        if 0 <= p < i {
            qualified_name_of(hs, p) + seq![' ', '>', ' '] + hs[i].title
        } else {
            hs[i].title
        }
    }
}

/// Concatenated lowercase mappings of every character.
pub open spec fn lower_all(s: Seq<char>) -> Seq<char>
    decreases s.len(),
{
    if s.len() == 0 {
        Seq::empty()
    } else {
        lower_all(s.drop_last()) + unicode_lowercase(s.last())
    }
}

pub open spec fn anchor_char(c: char) -> bool {
    unicode_alphanumeric(c) || c == '_'
}

/// One step of the anchor builder: the anchor so far and whether a
/// separator is pending.
pub open spec fn anchor_step(a: Seq<char>, pending: bool, c: char) -> (Seq<char>, bool) {
    if anchor_char(c) {
        (
            if pending && a.len() > 0 {
                a.push('-')
            } else {
                a
            }.push(c),
            false,
        )
    } else if c == '-' {
        (
            if a.len() > 0 && a.last() != '-' {
                a.push('-')
            } else {
                a
            },
            false,
        )
    } else if unicode_whitespace(c) {
        (a, true)
    } else {
        (a, pending)
    }
}

pub open spec fn anchor_fold(s: Seq<char>) -> (Seq<char>, bool)
    decreases s.len(),
{
    if s.len() == 0 {
        (Seq::empty(), false)
    } else {
        let st = anchor_fold(s.drop_last());
        anchor_step(st.0, st.1, s.last())
    }
}

/// GitHub-style anchor of a heading title or `#...` destination.
pub open spec fn markdown_anchor_of(input: Seq<char>) -> Seq<char> {
    let a = anchor_fold(lower_all(input)).0;
    if a.len() == 0 {
        seq!['s', 'e', 'c', 't', 'i', 'o', 'n']
    } else {
        trim_end_char(a, '-')
    }
}

/// Number of headings before `j` (and before `i`) with the anchor base of `i`.
pub open spec fn same_anchor_before(hs: Seq<HeadingSpec>, i: int, j: int) -> nat
    decreases j,
{
    if j <= 0 {
        0
    } else {
        same_anchor_before(hs, i, j - 1) + if markdown_anchor_of(hs[j - 1].title)
            == markdown_anchor_of(hs[i].title) {
            1nat
        } else {
            0nat
        }
    }
}

/// Anchor of heading `i`, with `-n` for the n-th repeated base.
pub open spec fn heading_anchor(hs: Seq<HeadingSpec>, i: int) -> Seq<char> {
    let base = markdown_anchor_of(hs[i].title);
    let c = same_anchor_before(hs, i, i);
    if c == 0 {
        base
    } else {
        base + seq!['-'] + decimal(c)
    }
}

/// Last heading below `n` whose anchor is `t`, or -1.
pub open spec fn anchor_target(hs: Seq<HeadingSpec>, t: Seq<char>, n: int) -> int
    decreases n,
{
    if n <= 0 {
        -1
    } else if heading_anchor(hs, n - 1) == t {
        n - 1
    } else {
        anchor_target(hs, t, n - 1)
    }
}

/// Last heading below `n` that starts on or before `line`, or -1.
pub open spec fn source_heading(hs: Seq<HeadingSpec>, line: int, n: int) -> int
    decreases n,
{
    if n <= 0 {
        -1
    } else if hs[n - 1].line <= line {
        n - 1
    } else {
        source_heading(hs, line, n - 1)
    }
}

/// Same-document anchor destinations of the links of `l[off..]`, without `#`.
pub open spec fn dests_from(l: Seq<char>, off: int) -> Seq<Seq<char>>
    decreases l.len() - off,
{
    let open = find_char_from(l, '[', off);
    proof {
        if off >= 0 {
            lemma_find_char_from_bounds(l, '[', off);
        }
    }
    if off < 0 || open < off {
        Seq::empty()
    } else {
        let o1 = open + 1;
        if open > 0 && l[open - 1] == '!' {
            dests_from(l, o1)
        } else if count_char(l.take(open), '`') % 2 == 1 {
            dests_from(l, o1)
        } else {
            let cl = find_pair_from(l, ']', '(', o1);
            if cl < o1 {
                dests_from(l, o1)
            } else {
                let ds = cl + 2;
                let ce = find_char_from(l, ')', ds);
                proof {
                    lemma_find_char_from_bounds(l, ')', ds);
                }
                if ce < ds {
                    dests_from(l, o1)
                } else {
                    let d = trim_angles(trim(l.subrange(ds, ce)));
                    let rest = dests_from(l, ce + 1);
                    if d.len() > 0 && d[0] == '#' {
                        seq![d.drop_first()] + rest
                    } else {
                        rest
                    }
                }
            }
        }
    }
}

pub open spec fn heading_id(file: Seq<char>, hs: Seq<HeadingSpec>, i: int) -> Seq<char> {
    node_id(NodeKind::Heading, file, hs[i].title, hs[i].line as u32)
}

pub open spec fn markdown_metadata(relation: Seq<char>) -> Seq<(Seq<char>, Seq<char>)> {
    seq![("relation"@, relation), ("extractor"@, "markdown"@), ("confidence"@, "static"@)]
}

/// The `contains` edge from heading `p` to its child `i`.
pub open spec fn contains_edge(file: Seq<char>, hs: Seq<HeadingSpec>, p: int, i: int) -> EdgeView {
    EdgeView {
        source: heading_id(file, hs, p),
        target: heading_id(file, hs, i),
        kind: EdgeKind::Contains,
        file_path: file,
        line: hs[i].line as u32,
        target_name: Some(hs[i].title),
        metadata: Some(markdown_metadata("markdown_heading_hierarchy"@)),
    }
}

/// Hierarchy edges of the first `n` headings.
pub open spec fn hierarchy_edges(file: Seq<char>, hs: Seq<HeadingSpec>, n: int) -> Seq<EdgeView>
    decreases n,
{
    if n <= 0 {
        Seq::empty()
    } else {
        let prev = hierarchy_edges(file, hs, n - 1);
        let p = parent_of(hs, n - 1);
        if p >= 0 {
            prev.push(contains_edge(file, hs, p, n - 1))
        } else {
            prev
        }
    }
}

/// The `references` edge of an internal link on `line` from heading `src`.
pub open spec fn link_edge(
    file: Seq<char>,
    hs: Seq<HeadingSpec>,
    src: int,
    target: int,
    line: int,
    anchor: Seq<char>,
) -> EdgeView {
    EdgeView {
        source: heading_id(file, hs, src),
        target: heading_id(file, hs, target),
        kind: EdgeKind::References,
        file_path: file,
        line: line as u32,
        target_name: Some(seq!['#'] + anchor),
        metadata: Some(markdown_metadata("markdown_internal_link"@)),
    }
}

/// Edges for the link destinations `dests` on `line`.
pub open spec fn link_edges_for(
    file: Seq<char>,
    hs: Seq<HeadingSpec>,
    src: int,
    line: int,
    dests: Seq<Seq<char>>,
) -> Seq<EdgeView>
    decreases dests.len(),
{
    if dests.len() == 0 {
        Seq::empty()
    } else {
        let prev = link_edges_for(file, hs, src, line, dests.drop_last());
        let t = markdown_anchor_of(dests.last());
        let tj = anchor_target(hs, t, hs.len() as int);
        if tj < 0 {
            prev
        } else {
            prev.push(link_edge(file, hs, src, tj, line, t))
        }
    }
}

/// Internal-link edges of the first `n` lines.
pub open spec fn link_edges_upto(
    file: Seq<char>,
    lines: Seq<Seq<char>>,
    hs: Seq<HeadingSpec>,
    n: int,
) -> Seq<EdgeView>
    decreases n,
{
    if n <= 0 {
        Seq::empty()
    } else {
        let prev = link_edges_upto(file, lines, hs, n - 1);
        let i = n - 1;
        if fence_line(lines[i]) || in_fence(lines, i) {
            prev
        } else {
            let src = source_heading(hs, i + 1, hs.len() as int);
            if src < 0 {
                prev
            } else {
                prev + link_edges_for(file, hs, src, i + 1, dests_from(lines[i], 0))
            }
        }
    }
}

/// The node recorded for heading `i`.
pub open spec fn heading_node(
    file: Seq<char>,
    lines: Seq<Seq<char>>,
    hs: Seq<HeadingSpec>,
    i: int,
) -> NodeView {
    let end = section_end(hs, lines.len() as int, i);
    let body = section_body(lines, hs[i].line, end);
    NodeView {
        id: heading_id(file, hs, i),
        name: hs[i].title,
        qualified_name: Some(qualified_name_of(hs, i)),
        kind: NodeKind::Heading,
        file_path: file,
        start_line: hs[i].line as u32,
        end_line: end as u32,
        start_column: 0,
        end_column: hs[i].width as u32,
        language: Language::Markdown,
        body: body,
        documentation: body,
        exported: None,
    }
}

/// The heading nodes of a document.
pub open spec fn markdown_nodes(file: Seq<char>, source: Seq<char>) -> Seq<NodeView> {
    let lines = lines_of(source);
    let hs = headings_of(lines);
    Seq::new(hs.len(), |i: int| heading_node(file, lines, hs, i))
}

/// The hierarchy edges followed by the internal-link edges of a document.
pub open spec fn markdown_edges(file: Seq<char>, source: Seq<char>) -> Seq<EdgeView> {
    let lines = lines_of(source);
    let hs = headings_of(lines);
    hierarchy_edges(file, hs, hs.len() as int) + link_edges_upto(file, lines, hs, lines.len() as int)
}

// ---------------------------------------------------------------------------
// Lemmas
// ---------------------------------------------------------------------------
proof fn lemma_lines_from_bounds(s: Seq<char>, start: int)
    requires
        0 <= start,
    ensures
        lines_from(s, start).len() <= if start <= s.len() {
            s.len() - start
        } else {
            0
        },
        forall|k: int|
            0 <= k < lines_from(s, start).len() ==> #[trigger] lines_from(s, start)[k].len()
                <= s.len(),
    decreases s.len() - start,
{
    if start < s.len() {
        lemma_find_char_from_bounds(s, '\n', start);
        let k = find_char_from(s, '\n', start);
        if k >= start {
            lemma_lines_from_bounds(s, k + 1);
            let rest = lines_from(s, k + 1);
            let first = strip_cr(s.subrange(start, k));
            assert(lines_from(s, start) == seq![first] + rest);
            assert forall|j: int| 0 <= j < lines_from(s, start).len() implies #[trigger] lines_from(
                s,
                start,
            )[j].len() <= s.len() by {
                if j > 0 {
                    assert(lines_from(s, start)[j] == rest[j - 1]);
                }
            }
        }
    }
}

// ---------------------------------------------------------------------------
// Executable extraction
// ---------------------------------------------------------------------------
/// `str::lines` over a character buffer.
pub(crate) fn split_lines(s: &[char]) -> (r: Vec<Vec<char>>)
    ensures
        seqs_view(r@) == lines_of(s@),
{
    let mut r: Vec<Vec<char>> = Vec::new();
    let mut start: usize = 0;
    assert(seqs_view(r@) + lines_from(s@, 0) =~= lines_of(s@));
    while start < s.len()
        invariant
            start <= s@.len(),
            seqs_view(r@) + lines_from(s@, start as int) == lines_of(s@),
        decreases s@.len() - start,
    {
        let ghost old_view = seqs_view(r@);
        proof {
            lemma_find_char_from_bounds(s@, '\n', start as int);
        }
        match find_char(s, '\n', start) {
            None => {
                let line = copy_range(s, start, s.len());
                r.push(line);
                proof {
                    assert(seqs_view(r@) =~= old_view.push(line@));
                    assert(lines_from(s@, s@.len() as int) =~= Seq::<Seq<char>>::empty());
                    assert(old_view + lines_from(s@, start as int) =~= seqs_view(r@) + lines_from(
                        s@,
                        s@.len() as int,
                    ));
                }
                start = s.len();
            },
            Some(k) => {
                let mut end = k;
                if end > start && s[end - 1] == '\r' {
                    end = end - 1;
                }
                let line = copy_range(s, start, end);
                r.push(line);
                proof {
                    let sub = s@.subrange(start as int, k as int);
                    if k > start && s@[k - 1] == '\r' {
                        assert(sub.drop_last() =~= line@);
                    } else {
                        assert(sub =~= line@);
                    }
                    assert(strip_cr(sub) == line@);
                    assert(seqs_view(r@) =~= old_view.push(line@));
                    let rest = lines_from(s@, k + 1);
                    assert(lines_from(s@, start as int) == seq![line@] + rest);
                    assert(old_view + (seq![line@] + rest) =~= old_view.push(line@) + rest);
                }
                start = k + 1;
            },
        }
    }
    proof {
        assert(lines_from(s@, start as int) =~= Seq::<Seq<char>>::empty());
        assert(seqs_view(r@) + Seq::<Seq<char>>::empty() =~= seqs_view(r@));
    }
    r
}

/// Whether a left-trimmed line opens or closes a fenced code block.
fn is_fence(trimmed: &[char]) -> (r: bool)
    ensures
        r == is_fence_spec(trimmed@),
{
    trimmed.len() >= 3 && ((trimmed[0] == '`' && trimmed[1] == '`' && trimmed[2] == '`') || (
    trimmed[0] == '~' && trimmed[1] == '~' && trimmed[2] == '~'))
}

/// The level and title of an ATX heading line (already left-trimmed).
fn atx_heading(trimmed: &[char]) -> (r: Option<(usize, Vec<char>)>)
    ensures
        match r {
            Some((level, title)) => atx_heading_spec(trimmed@) == Some((level as nat, title@)),
            None => atx_heading_spec(trimmed@) is None,
        },
{
    proof {
        lemma_first_other_bounds(trimmed@, '#', 0);
    }
    let marker_count = skip_char(trimmed, '#', 0);
    if marker_count == 0 || marker_count > 6 {
        return None;
    }
    let rest = copy_range(trimmed, marker_count, trimmed.len());
    if rest.len() == 0 || !char_is_whitespace(rest[0]) {
        return None;
    }
    let t1 = trim_chars(rest.as_slice());
    let t2 = trim_end_char_chars(t1.as_slice(), '#');
    let title = trim_chars(t2.as_slice());
    if title.len() == 0 {
        None
    } else {
        Some((marker_count, title))
    }
}

/// A heading as first recorded: level, title, line and line byte width.
struct RawHeading {
    level: usize,
    title: Vec<char>,
    line: u32,
    width: u32,
}

spec fn raw_matches(r: RawHeading, h: HeadingSpec) -> bool {
    &&& r.level as nat == h.level
    &&& r.title@ == h.title
    &&& r.line as int == h.line
    &&& r.width == h.width as u32
}

spec fn raws_match(rs: Seq<RawHeading>, hs: Seq<HeadingSpec>) -> bool {
    &&& rs.len() == hs.len()
    &&& forall|i: int| 0 <= i < rs.len() ==> raw_matches(#[trigger] rs[i], hs[i])
}

/// The ATX headings outside fenced code blocks, in line order.
fn collect_headings(lines: &Vec<Vec<char>>) -> (r: Vec<RawHeading>)
    requires
        lines@.len() < 0xFFFF_FFFF,
        forall|i: int| 0 <= i < lines@.len() ==> #[trigger] lines@[i]@.len() < 0xFFFF_FFFF,
    ensures
        raws_match(r@, headings_of(seqs_view(lines@))),
{
    let ghost ls = seqs_view(lines@);
    let mut hs: Vec<RawHeading> = Vec::new();
    let mut in_fenced_code = false;
    let mut i: usize = 0;
    while i < lines.len()
        invariant
            i <= lines@.len() < 0xFFFF_FFFF,
            ls == seqs_view(lines@),
            forall|j: int| 0 <= j < lines@.len() ==> #[trigger] lines@[j]@.len() < 0xFFFF_FFFF,
            in_fenced_code == in_fence(ls, i as int),
            raws_match(hs@, headings_upto(ls, i as int)),
        decreases lines@.len() - i,
    {
        let ghost prev = headings_upto(ls, i as int);
        let ghost old_hs = hs@;
        let trimmed = trim_start_chars(lines[i].as_slice());
        assert(ls[i as int] == lines@[i as int]@);
        if is_fence(trimmed.as_slice()) {
            in_fenced_code = !in_fenced_code;
            assert(headings_upto(ls, i + 1) == prev);
        } else if !in_fenced_code {
            match atx_heading(trimmed.as_slice()) {
                Some((level, title)) => {
                    let w = chars_utf8_len(lines[i].as_slice());
                    let width = #[verifier::truncate] (w as u32);
                    let line = (i + 1) as u32;
                    let ghost h = HeadingSpec {
                        level: level as nat,
                        title: title@,
                        line: i + 1,
                        width: utf8_len(ls[i as int]),
                    };
                    hs.push(RawHeading { level, title, line, width });
                    proof {
                        assert(heading_at(ls, i as int) == Some(h));
                        assert(headings_upto(ls, i + 1) == prev.push(h));
                        assert forall|j: int| 0 <= j < hs@.len() implies raw_matches(
                            #[trigger] hs@[j],
                            prev.push(h)[j],
                        ) by {
                            if j < prev.len() {
                                assert(hs@[j] == old_hs[j]);
                            }
                        }
                    }
                },
                None => {
                    assert(headings_upto(ls, i + 1) == prev);
                },
            }
        } else {
            assert(headings_upto(ls, i + 1) == prev);
        }
        i = i + 1;
    }
    hs
}

proof fn lemma_headings_upto_lines(lines: Seq<Seq<char>>, n: int)
    requires
        0 <= n <= lines.len(),
    ensures
        forall|i: int|
            0 <= i < headings_upto(lines, n).len() ==> 1 <= #[trigger] headings_upto(
                lines,
                n,
            )[i].line <= n,
        forall|i: int, j: int|
            0 <= i < j < headings_upto(lines, n).len() ==> #[trigger] headings_upto(lines, n)[i].line
                < #[trigger] headings_upto(lines, n)[j].line,
        headings_upto(lines, n).len() <= n,
    decreases n,
{
    if n > 0 {
        lemma_headings_upto_lines(lines, n - 1);
    }
}

proof fn lemma_headings_lines(lines: Seq<Seq<char>>)
    ensures
        forall|i: int|
            0 <= i < headings_of(lines).len() ==> 1 <= #[trigger] headings_of(lines)[i].line
                <= lines.len(),
        forall|i: int, j: int|
            0 <= i < j < headings_of(lines).len() ==> #[trigger] headings_of(lines)[i].line
                < #[trigger] headings_of(lines)[j].line,
        headings_of(lines).len() <= lines.len(),
{
    lemma_headings_upto_lines(lines, lines.len() as int);
}

/// Last line of the section that heading `i` opens.
fn section_end_of(headings: &Vec<RawHeading>, n_lines: u32, i: usize, hs: Ghost<Seq<HeadingSpec>>) -> (r: u32)
    requires
        raws_match(headings@, hs@),
        i < headings@.len(),
        forall|k: int| 0 <= k < hs@.len() ==> 1 <= #[trigger] hs@[k].line <= n_lines,
    ensures
        r as int == section_end(hs@, n_lines as int, i as int),
{
    let count = headings.len();
    let mut j = i + 1;
    assert(raw_matches(headings@[i as int], hs@[i as int]));
    while j < headings.len() && headings[j].level > headings[i].level
        invariant
            i < j <= headings@.len(),
            raws_match(headings@, hs@),
            raw_matches(headings@[i as int], hs@[i as int]),
            boundary_from(hs@, n_lines as int, i as int, i + 1) == boundary_from(
                hs@,
                n_lines as int,
                i as int,
                j as int,
            ),
        decreases headings@.len() - j,
    {
        assert(raw_matches(headings@[j as int], hs@[j as int]));
        j = j + 1;
    }
    let boundary = if j < headings.len() {
        assert(raw_matches(headings@[j as int], hs@[j as int]));
        headings[j].line - 1
    } else {
        n_lines
    };
    if boundary >= headings[i].line {
        boundary
    } else {
        headings[i].line
    }
}

proof fn lemma_fit_prefix_all(s: Seq<char>, max: nat, k: int)
    requires
        0 <= k <= s.len(),
        utf8_len(s) <= max,
    ensures
        fit_prefix(s, max, k) == s.len(),
    decreases s.len() - k,
{
    if k < s.len() {
        crate::text::lemma_utf8_len_prefix_monotone(s, k + 1, s.len() as int);
        assert(s.take(s.len() as int) =~= s);
        lemma_fit_prefix_all(s, max, k + 1);
    }
}

/// The trimmed text of lines `start..end`, truncated to 4096 UTF-8 bytes.
fn bounded_section_body(lines: &Vec<Vec<char>>, start: u32, end: u32) -> (r: Option<Vec<char>>)
    requires
        start <= end <= lines@.len(),
    ensures
        match r {
            Some(t) => section_body(seqs_view(lines@), start as int, end as int) == Some(t@),
            None => section_body(seqs_view(lines@), start as int, end as int) is None,
        },
{
    let ghost ls = seqs_view(lines@);
    let start = start as usize;
    let end = end as usize;
    let mut text: Vec<char> = Vec::new();
    let mut k = start;
    assert(join(ls.subrange(start as int, start as int), seq!['\n']) =~= text@);
    while k < end
        invariant
            start <= k <= end <= lines@.len(),
            ls == seqs_view(lines@),
            text@ == join(ls.subrange(start as int, k as int), seq!['\n']),
        decreases end - k,
    {
        let ghost parts = ls.subrange(start as int, k + 1);
        assert(parts.drop_last() =~= ls.subrange(start as int, k as int));
        assert(parts.last() == lines@[k as int]@);
        if k > start {
            text.push('\n');
        } else {
            assert(parts.len() == 1);
        }
        append_chars(&mut text, lines[k].as_slice());
        proof {
            if k > start {
                assert(text@ =~= join(parts.drop_last(), seq!['\n']) + seq!['\n'] + parts.last());
            } else {
                assert(text@ =~= parts[0]);
            }
        }
        k = k + 1;
    }
    let trimmed = trim_chars(text.as_slice());
    if trimmed.len() == 0 {
        return None;
    }
    let ghost t = trimmed@;
    let mut acc: u64 = 0;
    let mut n: usize = 0;
    assert(t.take(0) =~= Seq::<char>::empty());
    while n < trimmed.len() && acc + char_utf8_width(trimmed[n]) as u64 <= MAX_INDEXED_SECTION_BODY_LEN as u64
        invariant
            n <= t.len(),
            t == trimmed@,
            acc == utf8_len(t.take(n as int)),
            acc <= 4096,
            fit_prefix(t, 4096, 0) == fit_prefix(t, 4096, n as int),
        decreases t.len() - n,
    {
        assert(t.take(n + 1).drop_last() =~= t.take(n as int));
        acc = acc + char_utf8_width(trimmed[n]) as u64;
        n = n + 1;
    }
    if n == trimmed.len() {
        assert(t.take(n as int) =~= t);
        return Some(trimmed);
    }
    proof {
        assert(t.take(n + 1).drop_last() =~= t.take(n as int));
        crate::text::lemma_utf8_len_prefix_monotone(t, n + 1, t.len() as int);
        assert(t.take(t.len() as int) =~= t);
    }
    let mut out = copy_range(trimmed.as_slice(), 0, n);
    out.push('.');
    out.push('.');
    out.push('.');
    assert(out@ =~= t.take(n as int) + seq!['.', '.', '.']);
    Some(out)
}

/// Builds a Markdown relationship edge with its provenance metadata.
fn markdown_edge(
    source: &String,
    target: &String,
    kind: EdgeKind,
    file_path: &str,
    line: u32,
    target_name: &[char],
    relation: &str,
) -> (r: CodeEdge)
    ensures
        r@ == (EdgeView {
            source: source@,
            target: target@,
            kind,
            file_path: file_path@,
            line,
            target_name: Some(target_name@),
            metadata: Some(markdown_metadata(relation@)),
        }),
{
    let metadata = vec![
        ("relation".to_owned(), relation.to_owned()),
        ("extractor".to_owned(), "markdown".to_owned()),
        ("confidence".to_owned(), "static".to_owned()),
    ];
    let r = CodeEdge {
        source: source.clone(),
        target: target.clone(),
        kind,
        file_path: file_path.to_owned(),
        line,
        target_name: Some(string_from_chars(target_name)),
        metadata: Some(metadata),
    };
    assert(crate::types::pairs_view(metadata@) =~= markdown_metadata(relation@));
    r
}

/// Identifiers of the heading nodes.
fn heading_ids(file_path: &str, headings: &Vec<RawHeading>, hs: Ghost<Seq<HeadingSpec>>) -> (r: Vec<String>)
    requires
        raws_match(headings@, hs@),
    ensures
        r@.len() == hs@.len(),
        forall|i: int| 0 <= i < hs@.len() ==> #[trigger] r@[i]@ == heading_id(file_path@, hs@, i),
{
    let mut ids: Vec<String> = Vec::new();
    let mut i: usize = 0;
    while i < headings.len()
        invariant
            i <= headings@.len(),
            raws_match(headings@, hs@),
            ids@.len() == i,
            forall|k: int| 0 <= k < i ==> #[trigger] ids@[k]@ == heading_id(file_path@, hs@, k),
        decreases headings@.len() - i,
    {
        assert(raw_matches(headings@[i as int], hs@[i as int]));
        let title = string_from_chars(headings[i].title.as_slice());
        let id = make_node_id(NodeKind::Heading, file_path, title.as_str(), headings[i].line);
        ids.push(id);
        i = i + 1;
    }
    ids
}

/// Whether every heading strictly between `k` and `i` is deeper than `k`.
spec fn visible(hs: Seq<HeadingSpec>, k: int, i: int) -> bool {
    forall|m: int| k < m < i ==> #[trigger] hs[m].level > hs[k].level
}

/// The stack of candidate parents before heading `i` is processed.
spec fn chain_ok(hs: Seq<HeadingSpec>, st: Seq<usize>, i: int) -> bool {
    &&& forall|a: int, b: int| 0 <= a < b < st.len() ==> #[trigger] st[a] < #[trigger] st[b]
    &&& forall|a: int| 0 <= a < st.len() ==> #[trigger] st[a] < i
    &&& forall|a: int| 0 <= a < st.len() ==> visible(hs, #[trigger] st[a] as int, i)
    &&& forall|k: int| 0 <= k < i && #[trigger] visible(hs, k, i) ==> st.contains(k as usize)
}

proof fn lemma_parent_search(hs: Seq<HeadingSpec>, i: int, j: int)
    requires
        0 <= i < hs.len(),
        0 <= j <= i,
    ensures
        parent_search(hs, i, j) == -1 ==> forall|m: int|
            0 <= m < j ==> #[trigger] hs[m].level >= hs[i].level,
        parent_search(hs, i, j) != -1 ==> {
            let p = parent_search(hs, i, j);
            &&& 0 <= p < j
            &&& hs[p].level < hs[i].level
            &&& forall|m: int| p < m < j ==> #[trigger] hs[m].level >= hs[i].level
        },
    decreases j,
{
    if j > 0 && !(hs[j - 1].level < hs[i].level) {
        lemma_parent_search(hs, i, j - 1);
    }
}

/// Parent of each heading and the `contains` edges of the hierarchy.
fn assign_heading_hierarchy(
    file_path: &str,
    headings: &Vec<RawHeading>,
    ids: &Vec<String>,
    hs: Ghost<Seq<HeadingSpec>>,
) -> (r: (Vec<Vec<char>>, Vec<CodeEdge>))
    requires
        raws_match(headings@, hs@),
        ids@.len() == hs@.len(),
        forall|i: int| 0 <= i < hs@.len() ==> #[trigger] ids@[i]@ == heading_id(file_path@, hs@, i),
    ensures
        r.0@.len() == hs@.len(),
        forall|i: int| 0 <= i < hs@.len() ==> #[trigger] r.0@[i]@ == qualified_name_of(hs@, i),
        edges_view(r.1@) == hierarchy_edges(file_path@, hs@, hs@.len() as int),
{
    let mut names: Vec<Vec<char>> = Vec::new();
    let mut edges: Vec<CodeEdge> = Vec::new();
    let mut stack: Vec<usize> = Vec::new();
    let mut index: usize = 0;
    let sep = chars_of(" > ");
    proof {
        reveal_strlit(" > ");
    }
    assert(sep@ =~= seq![' ', '>', ' ']);
    while index < headings.len()
        invariant
            index <= headings@.len(),
            raws_match(headings@, hs@),
            ids@.len() == hs@.len(),
            forall|i: int| 0 <= i < hs@.len() ==> #[trigger] ids@[i]@ == heading_id(file_path@, hs@, i),
            sep@ == seq![' ', '>', ' '],
            names@.len() == index,
            forall|i: int| 0 <= i < index ==> #[trigger] names@[i]@ == qualified_name_of(hs@, i),
            edges_view(edges@) == hierarchy_edges(file_path@, hs@, index as int),
            chain_ok(hs@, stack@, index as int),
        decreases headings@.len() - index,
    {
        let ghost st0 = stack@;
        assert(raw_matches(headings@[index as int], hs@[index as int]));
        while stack.len() > 0 && headings[stack[stack.len() - 1]].level >= headings[index].level
            invariant
                index < headings@.len(),
                raws_match(headings@, hs@),
                raw_matches(headings@[index as int], hs@[index as int]),
                chain_ok(hs@, st0, index as int),
                stack@.len() <= st0.len(),
                forall|a: int| 0 <= a < stack@.len() ==> #[trigger] stack@[a] == st0[a],
                forall|a: int|
                    stack@.len() <= a < st0.len() ==> #[trigger] hs@[st0[a] as int].level
                        >= hs@[index as int].level,
            decreases stack@.len(),
        {
            let top = stack[stack.len() - 1];
            assert(raw_matches(headings@[top as int], hs@[top as int]));
            stack.pop();
        }
        let ghost p = parent_of(hs@, index as int);
        proof {
            lemma_parent_search(hs@, index as int, index as int);
            if stack@.len() > 0 {
                let t = stack@[stack@.len() - 1];
                assert(raw_matches(headings@[t as int], hs@[t as int]));
                assert(st0[stack@.len() - 1] == t);
            }
            if p >= 0 {
                assert(visible(hs@, p, index as int));
                assert(st0.contains(p as usize));
                let a = choose|a: int| 0 <= a < st0.len() && st0[a] == p as usize;
                if a >= stack@.len() {
                    assert(hs@[st0[a] as int].level >= hs@[index as int].level);
                }
                assert(stack@.len() > 0);
                let t = stack@[stack@.len() - 1];
                assert(st0[stack@.len() - 1] == t);
                if t as int > p {
                    assert(hs@[t as int].level >= hs@[index as int].level);
                }
                if (t as int) < p {
                    assert(a < stack@.len());
                    if a < stack@.len() - 1 {
                        assert(st0[a] < st0[stack@.len() - 1]);
                    }
                }
                assert(t as int == p);
            } else {
                if stack@.len() > 0 {
                    let t = stack@[stack@.len() - 1];
                    assert(st0[stack@.len() - 1] == t);
                    assert(hs@[t as int].level >= hs@[index as int].level);
                }
            }
        }
        let title = &headings[index].title;
        if stack.len() > 0 {
            let parent = stack[stack.len() - 1];
            assert(parent as int == p);
            let mut q = copy_range(names[parent].as_slice(), 0, names[parent].len());
            append_chars(&mut q, sep.as_slice());
            append_chars(&mut q, title.as_slice());
            names.push(q);
            let edge = markdown_edge(
                &ids[parent],
                &ids[index],
                EdgeKind::Contains,
                file_path,
                headings[index].line,
                title.as_slice(),
                "markdown_heading_hierarchy",
            );
            let ghost old_edges = edges_view(edges@);
            edges.push(edge);
            proof {
                assert(edges_view(edges@) =~= old_edges.push(edge@));
                assert(edge@ == contains_edge(file_path@, hs@, p, index as int));
            }
        } else {
            let q = copy_range(title.as_slice(), 0, title.len());
            names.push(q);
        }
        proof {
            assert(names@[index as int]@ == qualified_name_of(hs@, index as int));
            // The new stack describes the candidate parents of the next heading.
            let st1 = stack@.push(index);
            let ln = hs@[index as int].level;
            assert forall|a: int| 0 <= a < stack@.len() implies #[trigger] hs@[stack@[a] as int].level
                < ln by {
                let top = stack@.len() - 1;
                let t = stack@[top];
                assert(st0[top] == t);
                assert(st0[a] == stack@[a]);
                if a < top {
                    assert(st0[a] < st0[top]);
                    assert(visible(hs@, st0[a] as int, index as int));
                    assert(hs@[t as int].level > hs@[st0[a] as int].level);
                }
            }
            assert forall|a: int, b: int| 0 <= a < b < st1.len() implies #[trigger] st1[a]
                < #[trigger] st1[b] by {
                if b < stack@.len() {
                    assert(st0[a] < st0[b]);
                }
                assert(st0[a] == stack@[a]);
            }
            assert forall|a: int| 0 <= a < st1.len() implies visible(
                hs@,
                #[trigger] st1[a] as int,
                index + 1,
            ) by {
                if a < stack@.len() {
                    assert(st0[a] == stack@[a]);
                    assert(visible(hs@, st0[a] as int, index as int));
                    assert(hs@[stack@[a] as int].level < ln);
                }
            }
            assert forall|k: int| 0 <= k < index + 1 && #[trigger] visible(hs@, k, index + 1) implies st1.contains(
                k as usize,
            ) by {
                if k == index {
                    assert(st1[st1.len() - 1] == index);
                } else {
                    assert(visible(hs@, k, index as int));
                    assert(st0.contains(k as usize));
                    let a = choose|a: int| 0 <= a < st0.len() && st0[a] == k as usize;
                    assert(hs@[index as int].level > hs@[k].level);
                    assert(a < stack@.len());
                    assert(st1[a] == k as usize);
                }
            }
        }
        stack.push(index);
        index = index + 1;
    }
    (names, edges)
}

/// Deterministic GitHub-style anchor approximation for headings and `#...`
/// destinations. It intentionally keeps this relation local to one document
/// instead of claiming that arbitrary cross-file URLs resolve in a repository.
fn markdown_anchor(input: &[char]) -> (r: Vec<char>)
    ensures
        r@ == markdown_anchor_of(input@),
{
    let mut anchor: Vec<char> = Vec::new();
    let mut pending_dash = false;
    let mut i: usize = 0;
    assert(input@.take(0) =~= Seq::<char>::empty());
    while i < input.len()
        invariant
            i <= input@.len(),
            (anchor@, pending_dash) == anchor_fold(lower_all(input@.take(i as int))),
        decreases input@.len() - i,
    {
        let lower = char_to_lowercase(input[i]);
        let ghost prefix = lower_all(input@.take(i as int));
        let mut j: usize = 0;
        assert(prefix + lower@.take(0) =~= prefix);
        while j < lower.len()
            invariant
                j <= lower@.len(),
                (anchor@, pending_dash) == anchor_fold(prefix + lower@.take(j as int)),
            decreases lower@.len() - j,
        {
            let c = lower[j];
            let ghost before = prefix + lower@.take(j as int);
            assert((prefix + lower@.take(j + 1)).drop_last() =~= before);
            assert((prefix + lower@.take(j + 1)).last() == c);
            if char_is_alphanumeric(c) || c == '_' {
                if pending_dash && anchor.len() > 0 {
                    anchor.push('-');
                }
                anchor.push(c);
                pending_dash = false;
            } else if c == '-' {
                if anchor.len() > 0 && anchor[anchor.len() - 1] != '-' {
                    anchor.push('-');
                }
                pending_dash = false;
            } else if char_is_whitespace(c) {
                pending_dash = true;
            }
            j = j + 1;
        }
        proof {
            assert(input@.take(i + 1).drop_last() =~= input@.take(i as int));
            assert(lower@.take(lower@.len() as int) =~= lower@);
        }
        i = i + 1;
    }
    assert(input@.take(input@.len() as int) =~= input@);
    if anchor.len() == 0 {
        let section = chars_of("section");
        proof {
            reveal_strlit("section");
        }
        assert(section@ =~= seq!['s', 'e', 'c', 't', 'i', 'o', 'n']);
        section
    } else {
        trim_end_char_chars(anchor.as_slice(), '-')
    }
}

/// The anchor of every heading, repeated bases numbered `-1`, `-2`, ...
fn assign_anchors(headings: &Vec<RawHeading>, hs: Ghost<Seq<HeadingSpec>>) -> (r: Vec<Vec<char>>)
    requires
        raws_match(headings@, hs@),
        hs@.len() < 0xFFFF_FFFF,
    ensures
        r@.len() == hs@.len(),
        forall|i: int| 0 <= i < hs@.len() ==> #[trigger] r@[i]@ == heading_anchor(hs@, i),
{
    let mut bases: Vec<Vec<char>> = Vec::new();
    let mut i: usize = 0;
    while i < headings.len()
        invariant
            i <= headings@.len(),
            raws_match(headings@, hs@),
            bases@.len() == i,
            forall|k: int| 0 <= k < i ==> #[trigger] bases@[k]@ == markdown_anchor_of(hs@[k].title),
        decreases headings@.len() - i,
    {
        assert(raw_matches(headings@[i as int], hs@[i as int]));
        bases.push(markdown_anchor(headings[i].title.as_slice()));
        i = i + 1;
    }
    let mut anchors: Vec<Vec<char>> = Vec::new();
    let mut i: usize = 0;
    while i < headings.len()
        invariant
            i <= headings@.len() < 0xFFFF_FFFF,
            raws_match(headings@, hs@),
            bases@.len() == hs@.len(),
            forall|k: int| 0 <= k < hs@.len() ==> #[trigger] bases@[k]@ == markdown_anchor_of(hs@[k].title),
            anchors@.len() == i,
            forall|k: int| 0 <= k < i ==> #[trigger] anchors@[k]@ == heading_anchor(hs@, k),
        decreases headings@.len() - i,
    {
        let mut count: u64 = 0;
        let mut j: usize = 0;
        while j < i
            invariant
                j <= i < hs@.len() < 0xFFFF_FFFF,
                bases@.len() == hs@.len(),
                forall|k: int| 0 <= k < hs@.len() ==> #[trigger] bases@[k]@ == markdown_anchor_of(hs@[k].title),
                count == same_anchor_before(hs@, i as int, j as int),
                count <= j,
            decreases i - j,
        {
            if crate::text::chars_equal(bases[j].as_slice(), bases[i].as_slice()) {
                count = count + 1;
            }
            j = j + 1;
        }
        let mut anchor = copy_range(bases[i].as_slice(), 0, bases[i].len());
        if count > 0 {
            anchor.push('-');
            append_chars(&mut anchor, decimal_chars(count).as_slice());
            assert(anchor@ =~= markdown_anchor_of(hs@[i as int].title) + seq!['-'] + decimal(count as nat));
        }
        anchors.push(anchor);
        i = i + 1;
    }
    anchors
}

/// Whether byte offset `open` of `line` falls inside an inline code span.
fn is_inline_code(line: &[char], open: usize) -> (r: bool)
    requires
        open <= line@.len(),
    ensures
        r == (count_char(line@.take(open as int), '`') % 2 == 1),
{
    count_char_prefix(line, '`', open) % 2 == 1
}

/// The `#...` destinations of the same-document links on a line.
fn internal_anchor_destinations(line: &[char]) -> (r: Vec<Vec<char>>)
    ensures
        seqs_view(r@) == dests_from(line@, 0),
{
    let mut destinations: Vec<Vec<char>> = Vec::new();
    let mut offset: usize = 0;
    let line_len = line.len();
    assert(seqs_view(destinations@) + dests_from(line@, 0) =~= dests_from(line@, 0));
    loop
        invariant
            offset <= line@.len(),
            line_len == line@.len(),
            seqs_view(destinations@) + dests_from(line@, offset as int) == dests_from(line@, 0),
        ensures
            seqs_view(destinations@) == dests_from(line@, 0),
        decreases line@.len() - offset,
    {
        let ghost off0 = offset as int;
        proof {
            lemma_find_char_from_bounds(line@, '[', off0);
        }
        let open = match find_char(line, '[', offset) {
            None => {
                assert(seqs_view(destinations@) + Seq::<Seq<char>>::empty() =~= seqs_view(
                    destinations@,
                ));
                break ;
            },
            Some(o) => o,
        };
        offset = open + 1;
        if open > 0 && line[open - 1] == '!' {
            continue ;
        }
        if is_inline_code(line, open) {
            continue ;
        }
        proof {
            crate::text::lemma_find_pair_from_bounds(line@, ']', '(', offset as int);
        }
        let close_label = match find_pair(line, ']', '(', offset) {
            None => {
                continue ;
            },
            Some(c) => c,
        };
        let destination_start = close_label + 2;
        proof {
            lemma_find_char_from_bounds(line@, ')', destination_start as int);
        }
        let close_destination = match find_char(line, ')', destination_start) {
            None => {
                continue ;
            },
            Some(c) => c,
        };
        let raw = copy_range(line, destination_start, close_destination);
        let trimmed = trim_chars(raw.as_slice());
        let destination = trim_angles_chars(trimmed.as_slice());
        offset = close_destination + 1;
        if destination.len() > 0 && destination[0] == '#' {
            let anchor = copy_range(destination.as_slice(), 1, destination.len());
            let ghost old_view = seqs_view(destinations@);
            destinations.push(anchor);
            proof {
                assert(anchor@ =~= destination@.drop_first());
                assert(seqs_view(destinations@) =~= old_view.push(anchor@));
                let rest = dests_from(line@, offset as int);
                assert(dests_from(line@, off0) == seq![anchor@] + rest);
                assert(old_view + (seq![anchor@] + rest) =~= old_view.push(anchor@) + rest);
            }
        }
    }
    destinations
}

/// The last heading whose anchor is `target`.
fn find_anchor(anchors: &Vec<Vec<char>>, target: &[char], hs: Ghost<Seq<HeadingSpec>>) -> (r: Option<
    usize,
>)
    requires
        anchors@.len() == hs@.len(),
        forall|i: int| 0 <= i < hs@.len() ==> #[trigger] anchors@[i]@ == heading_anchor(hs@, i),
    ensures
        match r {
            Some(j) => j as int == anchor_target(hs@, target@, hs@.len() as int) && j < hs@.len(),
            None => anchor_target(hs@, target@, hs@.len() as int) == -1,
        },
{
    let mut n = anchors.len();
    while n > 0 && !crate::text::chars_equal(anchors[n - 1].as_slice(), target)
        invariant
            n <= anchors@.len() == hs@.len(),
            forall|i: int| 0 <= i < hs@.len() ==> #[trigger] anchors@[i]@ == heading_anchor(hs@, i),
            anchor_target(hs@, target@, hs@.len() as int) == anchor_target(hs@, target@, n as int),
        decreases n,
    {
        n = n - 1;
    }
    if n == 0 {
        None
    } else {
        Some(n - 1)
    }
}

proof fn lemma_source_heading(hs: Seq<HeadingSpec>, line: int, n: int, c: int)
    requires
        0 <= c <= n <= hs.len(),
        forall|j: int| 0 <= j < c ==> #[trigger] hs[j].line <= line,
        forall|j: int| c <= j < n ==> #[trigger] hs[j].line > line,
    ensures
        source_heading(hs, line, n) == c - 1,
    decreases n,
{
    if n > c {
        lemma_source_heading(hs, line, n - 1, c);
    }
}

/// Same-document anchor links, attributed to the section that contains them.
fn extract_internal_links(
    file_path: &str,
    lines: &Vec<Vec<char>>,
    headings: &Vec<RawHeading>,
    ids: &Vec<String>,
    anchors: &Vec<Vec<char>>,
    hs: Ghost<Seq<HeadingSpec>>,
) -> (r: Vec<CodeEdge>)
    requires
        hs@ == headings_of(seqs_view(lines@)),
        lines@.len() < 0xFFFF_FFFF,
        raws_match(headings@, hs@),
        ids@.len() == hs@.len(),
        forall|i: int| 0 <= i < hs@.len() ==> #[trigger] ids@[i]@ == heading_id(file_path@, hs@, i),
        anchors@.len() == hs@.len(),
        forall|i: int| 0 <= i < hs@.len() ==> #[trigger] anchors@[i]@ == heading_anchor(hs@, i),
    ensures
        edges_view(r@) == link_edges_upto(file_path@, seqs_view(lines@), hs@, lines@.len() as int),
{
    let ghost ls = seqs_view(lines@);
    proof {
        lemma_headings_lines(ls);
    }
    let mut edges: Vec<CodeEdge> = Vec::new();
    let mut in_fenced_code = false;
    let mut seen: usize = 0;
    let mut i: usize = 0;
    while i < lines.len()
        invariant
            i <= lines@.len() < 0xFFFF_FFFF,
            ls == seqs_view(lines@),
            hs@ == headings_of(ls),
            raws_match(headings@, hs@),
            ids@.len() == hs@.len(),
            forall|k: int| 0 <= k < hs@.len() ==> #[trigger] ids@[k]@ == heading_id(file_path@, hs@, k),
            anchors@.len() == hs@.len(),
            forall|k: int| 0 <= k < hs@.len() ==> #[trigger] anchors@[k]@ == heading_anchor(hs@, k),
            forall|k: int| 0 <= k < hs@.len() ==> 1 <= #[trigger] hs@[k].line <= ls.len(),
            forall|a: int, b: int| 0 <= a < b < hs@.len() ==> #[trigger] hs@[a].line < #[trigger] hs@[b].line,
            in_fenced_code == in_fence(ls, i as int),
            seen <= hs@.len(),
            forall|k: int| 0 <= k < seen ==> #[trigger] hs@[k].line <= i,
            forall|k: int| seen <= k < hs@.len() ==> #[trigger] hs@[k].line > i,
            edges_view(edges@) == link_edges_upto(file_path@, ls, hs@, i as int),
        decreases lines@.len() - i,
    {
        let line_number = (i + 1) as u32;
        while seen < headings.len() && headings[seen].line <= line_number
            invariant
                seen <= hs@.len(),
                raws_match(headings@, hs@),
                line_number as int == i + 1,
                forall|a: int, b: int| 0 <= a < b < hs@.len() ==> #[trigger] hs@[a].line < #[trigger] hs@[b].line,
                forall|k: int| 0 <= k < seen ==> #[trigger] hs@[k].line <= i + 1,
                forall|k: int| seen <= k < hs@.len() ==> #[trigger] hs@[k].line > i,
            decreases hs@.len() - seen,
        {
            assert(raw_matches(headings@[seen as int], hs@[seen as int]));
            seen = seen + 1;
        }
        proof {
            if seen < hs@.len() {
                assert(raw_matches(headings@[seen as int], hs@[seen as int]));
                assert forall|k: int| seen <= k < hs@.len() implies #[trigger] hs@[k].line > i + 1 by {
                    if k > seen {
                        assert(hs@[seen as int].line < hs@[k].line);
                    }
                }
            }
            lemma_source_heading(hs@, i + 1, hs@.len() as int, seen as int);
        }
        let ghost prev = link_edges_upto(file_path@, ls, hs@, i as int);
        let trimmed = trim_start_chars(lines[i].as_slice());
        assert(ls[i as int] == lines@[i as int]@);
        if is_fence(trimmed.as_slice()) {
            in_fenced_code = !in_fenced_code;
        } else if !in_fenced_code && seen > 0 {
            let source_index = seen - 1;
            let destinations = internal_anchor_destinations(lines[i].as_slice());
            let ghost dests = seqs_view(destinations@);
            let mut d: usize = 0;
            assert(dests.take(0) =~= Seq::<Seq<char>>::empty());
            assert(prev + link_edges_for(file_path@, hs@, source_index as int, i + 1, dests.take(0)) =~= prev);
            while d < destinations.len()
                invariant
                    d <= destinations@.len(),
                    dests == seqs_view(destinations@),
                    source_index < hs@.len(),
                    line_number as int == i + 1,
                    i < 0xFFFF_FFFF,
                    ids@.len() == hs@.len(),
                    forall|k: int| 0 <= k < hs@.len() ==> #[trigger] ids@[k]@ == heading_id(file_path@, hs@, k),
                    anchors@.len() == hs@.len(),
                    forall|k: int| 0 <= k < hs@.len() ==> #[trigger] anchors@[k]@ == heading_anchor(hs@, k),
                    edges_view(edges@) == prev + link_edges_for(
                        file_path@,
                        hs@,
                        source_index as int,
                        i + 1,
                        dests.take(d as int),
                    ),
                decreases destinations@.len() - d,
            {
                let target = markdown_anchor(destinations[d].as_slice());
                assert(dests.take(d + 1).drop_last() =~= dests.take(d as int));
                assert(dests.take(d + 1).last() == destinations@[d as int]@);
                match find_anchor(anchors, target.as_slice(), hs) {
                    None => {},
                    Some(target_index) => {
                        let mut name: Vec<char> = Vec::new();
                        name.push('#');
                        append_chars(&mut name, target.as_slice());
                        let edge = markdown_edge(
                            &ids[source_index],
                            &ids[target_index],
                            EdgeKind::References,
                            file_path,
                            line_number,
                            name.as_slice(),
                            "markdown_internal_link",
                        );
                        let ghost old_edges = edges_view(edges@);
                        edges.push(edge);
                        proof {
                            assert(name@ =~= seq!['#'] + target@);
                            assert(edges_view(edges@) =~= old_edges.push(edge@));
                            assert(edge@ == link_edge(
                                file_path@,
                                hs@,
                                source_index as int,
                                target_index as int,
                                i + 1,
                                target@,
                            ));
                        }
                    },
                }
                d = d + 1;
            }
            assert(dests.take(dests.len() as int) =~= dests);
        }
        i = i + 1;
    }
    edges
}

proof fn lemma_boundary_le(hs: Seq<HeadingSpec>, n_lines: int, i: int, j: int)
    requires
        0 <= n_lines,
        forall|k: int| 0 <= k < hs.len() ==> 1 <= #[trigger] hs[k].line <= n_lines,
    ensures
        boundary_from(hs, n_lines, i, j) <= n_lines,
    decreases hs.len() - j,
{
    if 0 <= j < hs.len() && !(hs[j].level <= hs[i].level) {
        lemma_boundary_le(hs, n_lines, i, j + 1);
    }
}

spec fn section_ok(e: (u32, Option<Vec<char>>), hs: Seq<HeadingSpec>, ls: Seq<Seq<char>>, i: int) -> bool {
    let end = section_end(hs, ls.len() as int, i);
    &&& e.0 as int == end
    &&& match e.1 {
        Some(b) => section_body(ls, hs[i].line, end) == Some(b@),
        None => section_body(ls, hs[i].line, end) is None,
    }
}

/// End line and bounded body text of each heading's section.
fn assign_section_ranges_and_bodies(
    headings: &Vec<RawHeading>,
    lines: &Vec<Vec<char>>,
    hs: Ghost<Seq<HeadingSpec>>,
) -> (r: Vec<(u32, Option<Vec<char>>)>)
    requires
        raws_match(headings@, hs@),
        lines@.len() < 0xFFFF_FFFF,
        forall|k: int| 0 <= k < hs@.len() ==> 1 <= #[trigger] hs@[k].line <= lines@.len(),
    ensures
        r@.len() == hs@.len(),
        forall|i: int| 0 <= i < hs@.len() ==> section_ok(#[trigger] r@[i], hs@, seqs_view(lines@), i),
{
    let n_lines = lines.len() as u32;
    let mut sections: Vec<(u32, Option<Vec<char>>)> = Vec::new();
    let mut index: usize = 0;
    while index < headings.len()
        invariant
            index <= headings@.len(),
            raws_match(headings@, hs@),
            n_lines as int == lines@.len(),
            forall|k: int| 0 <= k < hs@.len() ==> 1 <= #[trigger] hs@[k].line <= lines@.len(),
            sections@.len() == index,
            forall|i: int| 0 <= i < index ==> section_ok(#[trigger] sections@[i], hs@, seqs_view(lines@), i),
        decreases headings@.len() - index,
    {
        assert(raw_matches(headings@[index as int], hs@[index as int]));
        let end_line = section_end_of(headings, n_lines, index, hs);
        proof {
            lemma_boundary_le(hs@, n_lines as int, index as int, index + 1);
        }
        let body = bounded_section_body(lines, headings[index].line, end_line);
        sections.push((end_line, body));
        index = index + 1;
    }
    sections
}

/// Copies an optional character buffer into an optional string.
fn opt_string(o: &Option<Vec<char>>) -> (r: Option<String>)
    ensures
        opt_view(r) == match o {
            Some(b) => Some(b@),
            None => None::<Seq<char>>,
        },
{
    match o {
        Some(b) => Some(string_from_chars(b.as_slice())),
        None => None,
    }
}

/// Extract section facts from one Markdown or MDX document.
pub fn extract_markdown(file_path: &str, source: &str) -> (r: MarkdownExtraction)
    requires
        source@.len() < 0xFFFF_FFFF,
    ensures
        nodes_view(r.nodes@) == markdown_nodes(file_path@, source@),
        edges_view(r.edges@) == markdown_edges(file_path@, source@),
{
    let src = chars_of(source);
    let lines = split_lines(src.as_slice());
    let ghost ls = seqs_view(lines@);
    proof {
        lemma_lines_from_bounds(src@, 0);
        assert forall|i: int| 0 <= i < lines@.len() implies #[trigger] lines@[i]@.len() < 0xFFFF_FFFF by {
            assert(ls[i] == lines@[i]@);
        }
        lemma_headings_lines(ls);
    }
    let headings = collect_headings(&lines);
    let ghost hs = headings_of(ls);
    let sections = assign_section_ranges_and_bodies(&headings, &lines, Ghost(hs));
    let ids = heading_ids(file_path, &headings, Ghost(hs));
    let (names, mut edges) = assign_heading_hierarchy(file_path, &headings, &ids, Ghost(hs));
    let anchors = assign_anchors(&headings, Ghost(hs));
    let links = extract_internal_links(file_path, &lines, &headings, &ids, &anchors, Ghost(hs));
    let ghost hier = edges_view(edges@);
    let mut k: usize = 0;
    while k < links.len()
        invariant
            k <= links@.len(),
            edges_view(edges@) == hier + edges_view(links@).take(k as int),
        decreases links@.len() - k,
    {
        let ghost before = edges_view(edges@);
        let e = links[k].clone_edge();
        edges.push(e);
        assert(edges_view(edges@) =~= before.push(e@));
        assert(edges_view(links@).take(k + 1) =~= edges_view(links@).take(k as int).push(links@[k as int]@));
        assert(edges_view(edges@) =~= hier + edges_view(links@).take(k + 1));
        k = k + 1;
    }
    assert(edges_view(links@).take(links@.len() as int) =~= edges_view(links@));
    let mut nodes: Vec<CodeNode> = Vec::new();
    let mut i: usize = 0;
    while i < headings.len()
        invariant
            i <= headings@.len(),
            hs == headings_of(ls),
            ls == seqs_view(lines@),
            raws_match(headings@, hs),
            lines@.len() < 0xFFFF_FFFF,
            forall|k: int| 0 <= k < hs.len() ==> 1 <= #[trigger] hs[k].line <= lines@.len(),
            sections@.len() == hs.len(),
            forall|j: int| 0 <= j < hs.len() ==> section_ok(#[trigger] sections@[j], hs, ls, j),
            ids@.len() == hs.len(),
            forall|j: int| 0 <= j < hs.len() ==> #[trigger] ids@[j]@ == heading_id(file_path@, hs, j),
            names@.len() == hs.len(),
            forall|j: int| 0 <= j < hs.len() ==> #[trigger] names@[j]@ == qualified_name_of(hs, j),
            nodes@.len() == i,
            forall|j: int| 0 <= j < i ==> #[trigger] nodes@[j]@ == heading_node(file_path@, ls, hs, j),
        decreases headings@.len() - i,
    {
        assert(raw_matches(headings@[i as int], hs[i as int]));
        let heading = &headings[i];
        let node = CodeNode {
            id: ids[i].clone(),
            name: string_from_chars(heading.title.as_slice()),
            qualified_name: Some(string_from_chars(names[i].as_slice())),
            kind: NodeKind::Heading,
            file_path: file_path.to_owned(),
            start_line: heading.line,
            end_line: sections[i].0,
            start_column: 0,
            end_column: heading.width,
            language: Language::Markdown,
            body: opt_string(&sections[i].1),
            documentation: opt_string(&sections[i].1),
            exported: None,
        };
        proof {
            assert(section_ok(sections@[i as int], hs, ls, i as int));
        }
        nodes.push(node);
        proof {
            let j = i as int;
            assert(nodes@[j]@ == heading_node(file_path@, ls, hs, j));
        }
        i = i + 1;
    }
    proof {
        assert(nodes_view(nodes@) =~= markdown_nodes(file_path@, source@));
        assert(edges_view(edges@) =~= markdown_edges(file_path@, source@));
    }
    MarkdownExtraction { nodes, edges }
}

/// Compatibility wrapper for callers that need only headings.
pub fn extract_headings(file_path: &str, source: &str) -> (r: Vec<CodeNode>)
    requires
        source@.len() < 0xFFFF_FFFF,
    ensures
        nodes_view(r@) == markdown_nodes(file_path@, source@),
{
    extract_markdown(file_path, source).nodes
}

} // verus!
