//! Logic of the markdown editor that does not depend on measured glyphs:
//! selections, block scan windows, and which styled spans are being edited.

use vstd::prelude::*;

use crate::pdf_link::{all_digits, digit_of, digits_value, is_digit, lemma_digits_monotone};
use crate::pdf_link::{split_chars, split_on};
use crate::integrity::{contains_path, has_path};
use crate::pdf_link::{parse_pdf_link, parse_pdf_link_spec};
use crate::text::{
    chars_of, contains_seq, extend_chars, find_char, has_prefix, has_substring, index_of,
    lemma_index_of, slice_chars, starts_with, string_of,
};

verus! {

// ---------------------------------------------------------------------------
// Selections
// ---------------------------------------------------------------------------

/// `(line, column)` positions in reading order.
pub open spec fn position_le(a: (usize, usize), b: (usize, usize)) -> bool {
    a.0 < b.0 || (a.0 == b.0 && a.1 <= b.1)
}

/// The selection between an anchor and a focus, earlier end first; `None`
/// unless both ends are set.
pub open spec fn normalized_selection_spec(
    anchor: Option<(usize, usize)>,
    focus: Option<(usize, usize)>,
) -> Option<((usize, usize), (usize, usize))> {
    match (anchor, focus) {
        (Some(a), Some(f)) => Some(
            if position_le(a, f) {
                (a, f)
            } else {
                (f, a)
            },
        ),
        _ => None,
    }
}

/// The selection between an anchor and a focus, earlier end first; `None`
/// unless both ends are set.
pub fn normalized_selection(
    anchor: Option<(usize, usize)>,
    focus: Option<(usize, usize)>,
) -> (r: Option<((usize, usize), (usize, usize))>)
    ensures
        r == normalized_selection_spec(anchor, focus),
        r matches Some((s, e)) ==> position_le(s, e),
{
    match (anchor, focus) {
        (Some(a), Some(f)) => {
            if a.0 < f.0 || (a.0 == f.0 && a.1 <= f.1) {
                Some((a, f))
            } else {
                Some((f, a))
            }
        },
        _ => None,
    }
}

/// The part of line `l` a selection from `s` to `e` covers, with the line
/// break after it when the selection goes on past the line.
pub open spec fn selected_piece(lines: Seq<String>, s: (usize, usize), e: (usize, usize), l: int) -> Seq<char> {
    let line = lines[l]@;
    let from: int = if l == s.0 {
        if (s.1 as int) < line.len() { s.1 as int } else { line.len() as int }
    } else {
        0
    };
    let to: int = if l == e.0 {
        if (e.1 as int) < line.len() { e.1 as int } else { line.len() as int }
    } else {
        line.len() as int
    };
    (if from < to {
        line.subrange(from, to)
    } else {
        Seq::empty()
    }) + (if l != e.0 {
        seq!['\n']
    } else {
        Seq::empty()
    })
}

/// The selected text of lines `s.0` up to (not including) `upto`.
pub open spec fn selected_upto(lines: Seq<String>, s: (usize, usize), e: (usize, usize), upto: int) -> Seq<char>
    decreases upto - s.0,
{
    if upto <= s.0 {
        Seq::empty()
    } else {
        selected_upto(lines, s, e, upto - 1) + selected_piece(lines, s, e, upto - 1)
    }
}

/// The text a selection covers, its lines joined by line breaks, columns
/// counted in characters and held to each line's length; `None` when there
/// is no selection or it covers no text.
pub fn selected_text(
    lines: &Vec<String>,
    anchor: Option<(usize, usize)>,
    focus: Option<(usize, usize)>,
) -> (r: Option<String>)
    requires
        anchor matches Some(a) ==> a.0 < lines@.len(),
        focus matches Some(f) ==> f.0 < lines@.len(),
    ensures
        match normalized_selection_spec(anchor, focus) {
            Some((s, e)) => {
                let text = selected_upto(lines@, s, e, e.0 + 1);
                if text.len() == 0 {
                    r is None
                } else {
                    r matches Some(t) && t@ == text
                }
            },
            None => r is None,
        },
{
    let (s, e) = match normalized_selection(anchor, focus) {
        Some(sel) => sel,
        None => return None,
    };
    let mut out: Vec<char> = Vec::new();
    let mut l = s.0;
    let n = lines.len();
    while l <= e.0
        invariant
            s.0 <= l <= e.0 + 1,
            e.0 < lines@.len(),
            n == lines@.len(),
            position_le(s, e),
            out@ == selected_upto(lines@, s, e, l as int),
        decreases e.0 + 1 - l,
    {
        let line = chars_of(lines[l].as_str());
        let len = line.len();
        let from = if l == s.0 {
            if s.1 < len { s.1 } else { len }
        } else {
            0
        };
        let to = if l == e.0 {
            if e.1 < len { e.1 } else { len }
        } else {
            len
        };
        let ghost before = out@;
        if from < to {
            extend_chars(&mut out, &slice_chars(&line, from, to));
        }
        if l != e.0 {
            out.push('\n');
        }
        assert(out@ =~= before + selected_piece(lines@, s, e, l as int));
        l = l + 1;
    }
    if out.len() == 0 {
        None
    } else {
        Some(string_of(&out))
    }
}

// ---------------------------------------------------------------------------
// Broken link targets
// ---------------------------------------------------------------------------

/// A web link: `http://`, `https://`, or any other scheme but `pdf://`.
pub open spec fn is_url_target(t: Seq<char>) -> bool {
    ||| starts_with(t, "http://"@)
    ||| starts_with(t, "https://"@)
    ||| contains_seq(t, "://"@) && !starts_with(t, "pdf://"@)
}

/// The target up to its first `#`.
pub open spec fn before_fragment(t: Seq<char>) -> Seq<char> {
    match index_of(t, '#') {
        Some(i) => t.take(i),
        None => t,
    }
}

/// A link that is never reported broken: a web link or an in-page anchor.
pub open spec fn is_ignored_target(t: Seq<char>) -> bool {
    is_url_target(t) || starts_with(t, seq!['#'])
}

/// The path a link target is looked up by, before it is resolved against
/// the vault and the open note: none for a link that is never broken; the
/// PDF's path for a PDF link; otherwise the target without its fragment.
pub open spec fn link_lookup(t: Seq<char>) -> Option<Seq<char>> {
    if is_ignored_target(t) {
        None
    } else {
        match parse_pdf_link_spec(before_fragment(t)) {
            Some((path, _, _)) => Some(path),
            None => Some(before_fragment(t)),
        }
    }
}

/// Whether a link is drawn as broken, given the vault files and the path its
/// lookup path resolves to: a PDF link when its file is missing; any other
/// file link when neither the path nor the path with `.md` or `.markdown`
/// added exists.
pub open spec fn link_broken(t: Seq<char>, resolved: Seq<char>, existing: Seq<String>) -> bool {
    if is_ignored_target(t) {
        false
    } else if parse_pdf_link_spec(before_fragment(t)) is Some {
        !has_path(existing, resolved)
    } else {
        !(has_path(existing, resolved) || has_path(existing, resolved + ".md"@) || has_path(
            existing,
            resolved + ".markdown"@,
        ))
    }
}

fn ignored_target(t: &Vec<char>) -> (r: bool)
    ensures
        r == is_ignored_target(t@),
{
    let url = has_prefix(t, &chars_of("http://")) || has_prefix(t, &chars_of("https://")) || (
    has_substring(t, &chars_of("://")) && !has_prefix(t, &chars_of("pdf://")));
    let anchor = t.len() > 0 && t[0] == '#';
    proof {
        if starts_with(t@, seq!['#']) {
            assert(t@.take(1)[0] == '#');
        }
        if anchor {
            assert(t@.take(1) =~= seq!['#']);
        }
    }
    url || anchor
}

fn fragment_free(t: &Vec<char>) -> (r: Vec<char>)
    ensures
        r@ == before_fragment(t@),
{
    proof {
        lemma_index_of(t@, '#');
    }
    match find_char(t, '#') {
        Some(i) => slice_chars(t, 0, i),
        None => slice_chars(t, 0, t.len()),
    }
}

/// The path a link target is looked up by (see [`link_lookup`]); `None` for
/// a web link or an in-page anchor.
pub fn link_lookup_path(target: &str) -> (r: Option<String>)
    ensures
        match link_lookup(target@) {
            Some(p) => r matches Some(s) && s@ == p,
            None => r is None,
        },
{
    let t = chars_of(target);
    if ignored_target(&t) {
        return None;
    }
    let file = fragment_free(&t);
    let file_str = string_of(&file);
    match parse_pdf_link(file_str.as_str()) {
        Some(pdf) => Some(pdf.path),
        None => Some(file_str),
    }
}

/// Whether a link is drawn as broken (see [`link_broken`]): `resolved` is
/// what [`link_lookup_path`] gave for the target, resolved against the vault
/// and the open note.
pub fn is_link_target_broken(target: &str, resolved: &str, existing_files: &Vec<String>) -> (r: bool)
    ensures
        r == link_broken(target@, resolved@, existing_files@),
{
    let t = chars_of(target);
    if ignored_target(&t) {
        return false;
    }
    let file = fragment_free(&t);
    let file_str = string_of(&file);
    let resolved_chars = chars_of(resolved);
    match parse_pdf_link(file_str.as_str()) {
        Some(_) => !contains_path(existing_files, &resolved_chars),
        None => {
            if contains_path(existing_files, &resolved_chars) {
                return false;
            }
            let mut md = chars_of(resolved);
            extend_chars(&mut md, &chars_of(".md"));
            let mut markdown = chars_of(resolved);
            extend_chars(&mut markdown, &chars_of(".markdown"));
            !(contains_path(existing_files, &md) || contains_path(existing_files, &markdown))
        },
    }
}

// ---------------------------------------------------------------------------
// Block scan windows
// ---------------------------------------------------------------------------

/// How many lines of one block the hot paths may scan.
pub const HOT_PATH_BLOCK_SCAN_LIMIT: usize = 256;

/// `x` clamped into `[lo, hi]`.
pub open spec fn clamp(x: int, lo: int, hi: int) -> int {
    if x < lo {
        lo
    } else if x > hi {
        hi
    } else {
        x
    }
}

/// The window of a block's lines `[start, end]` to scan around the preferred
/// lines: the preferred range clamped into the block; when that is already
/// the limit long, its first `limit` lines; otherwise it widened by the spare
/// lines, half before and half (rounded up) after, cut at the block's ends.
pub open spec fn scan_range_spec(start: int, end: int, preferred_start: int, preferred_end: int) -> Option<(int, int)> {
    if start > end {
        None
    } else {
        let ps = clamp(preferred_start, start, end);
        let pe0 = clamp(preferred_end, start, end);
        let pe = if pe0 >= ps { pe0 } else { ps };
        let len = pe - ps + 1;
        let limit = HOT_PATH_BLOCK_SCAN_LIMIT as int;
        if len >= limit {
            let last = ps + limit - 1;
            Some((ps, if last < end { last } else { end }))
        } else {
            let remaining = limit - len;
            let before = remaining / 2;
            let after = remaining - before;
            let s = if ps - before > start { ps - before } else { start };
            let e = if pe + after < end { pe + after } else { end };
            Some((s, e))
        }
    }
}

/// The lines of a block to scan on a hot path: never more than
/// [`HOT_PATH_BLOCK_SCAN_LIMIT`], always inside the block, and always holding
/// the preferred start line (clamped into the block).
#[verifier::rlimit(50)]
pub fn bounded_block_scan_range(
    start: usize,
    end: usize,
    preferred_start: usize,
    preferred_end: usize,
) -> (r: Option<(usize, usize)>)
    ensures
        r matches Some((s, e)) ==> scan_range_spec(
            start as int,
            end as int,
            preferred_start as int,
            preferred_end as int,
        ) == Some((s as int, e as int)),
        r is None <==> start > end,
        r matches Some((s, e)) ==> start <= s <= e <= end && e - s + 1 <= HOT_PATH_BLOCK_SCAN_LIMIT
            && s <= clamp(preferred_start as int, start as int, end as int) <= e,
{
    if start > end {
        return None;
    }
    let ps = if preferred_start < start {
        start
    } else if preferred_start > end {
        end
    } else {
        preferred_start
    };
    let pe0 = if preferred_end < start {
        start
    } else if preferred_end > end {
        end
    } else {
        preferred_end
    };
    let pe = if pe0 >= ps {
        pe0
    } else {
        ps
    };
    let len = (pe - ps).saturating_add(1);
    if len >= HOT_PATH_BLOCK_SCAN_LIMIT {
        let last = ps.saturating_add(HOT_PATH_BLOCK_SCAN_LIMIT - 1);
        let scan_end = if last < end {
            last
        } else {
            end
        };
        return Some((ps, scan_end));
    }
    let remaining = HOT_PATH_BLOCK_SCAN_LIMIT - len;
    let before = remaining / 2;
    let after = remaining - before;
    let s0 = ps.saturating_sub(before);
    let scan_start = if s0 > start {
        s0
    } else {
        start
    };
    let e0 = pe.saturating_add(after);
    let scan_end = if e0 < end {
        e0
    } else {
        end
    };
    Some((scan_start, scan_end))
}

// ---------------------------------------------------------------------------
// Styled lines
// ---------------------------------------------------------------------------

/// One highlighted run of a markdown line: its source text, the text shown
/// when it is not being edited, an optional anchor id (`equation-3`,
/// `figure-2`), and what kind of run it is.
#[derive(Debug, Clone)]
pub struct StyledSpan {
    pub text: String,
    pub rendered: String,
    pub id: Option<String>,
    pub is_syntax: bool,
    pub is_checkbox: bool,
    pub is_link: bool,
    pub bold: bool,
    pub italic: bool,
    pub is_code: bool,
    pub is_math: bool,
    pub is_heading: bool,
}

impl StyledSpan {
    /// A plain run of text, shown as written.
    pub fn plain(text: &str) -> (s: StyledSpan)
        ensures
            s.text@ == text@,
            s.rendered@ == text@,
            s.id is None,
            !s.is_syntax && !s.is_checkbox && !s.is_link && !s.bold && !s.italic && !s.is_code
                && !s.is_math && !s.is_heading,
    {
        let chars = chars_of(text);
        StyledSpan {
            text: string_of(&chars),
            rendered: string_of(&chars),
            id: None,
            is_syntax: false,
            is_checkbox: false,
            is_link: false,
            bold: false,
            italic: false,
            is_code: false,
            is_math: false,
            is_heading: false,
        }
    }

    /// The text the span shows: its source while it is being edited, its
    /// rendered form otherwise.
    pub fn visible_text(&self, editing: bool) -> (r: &str)
        ensures
            r@ == (if editing {
                self.text@
            } else {
                self.rendered@
            }),
    {
        if editing {
            self.text.as_str()
        } else {
            self.rendered.as_str()
        }
    }
}

/// One line of the highlighted document and the block it belongs to.
#[derive(Debug, Clone)]
pub struct StyledLine {
    pub spans: Vec<StyledSpan>,
    pub block_id: usize,
    pub is_code_block: bool,
    pub is_math_block: bool,
    pub is_table_row: bool,
    pub is_blockquote: bool,
}

impl StyledLine {
    /// An empty line in block zero.
    pub fn new() -> (l: StyledLine)
        ensures
            l.spans@.len() == 0,
            l.block_id == 0,
            !l.is_code_block && !l.is_math_block && !l.is_table_row && !l.is_blockquote,
    {
        StyledLine {
            spans: Vec::new(),
            block_id: 0,
            is_code_block: false,
            is_math_block: false,
            is_table_row: false,
            is_blockquote: false,
        }
    }
}

/// The column just after a span that starts at `start_col`.
pub fn source_col_after_span(span: &StyledSpan, start_col: usize) -> (r: usize)
    requires
        start_col + span.text@.len() <= usize::MAX,
    ensures
        r == start_col + span.text@.len(),
{
    let n = chars_of(span.text.as_str()).len();
    start_col + n
}

/// The source column where span `k` starts: the characters of the spans
/// before it.
pub open spec fn cols_before(spans: Seq<StyledSpan>, k: int) -> int
    decreases k,
{
    if k <= 0 {
        0
    } else {
        cols_before(spans, k - 1) + spans[k - 1].text@.len()
    }
}

/// The whole line's source text fits the column type.
pub open spec fn line_cols_fit(line: StyledLine) -> bool {
    cols_before(line.spans@, line.spans@.len() as int) <= usize::MAX
}

proof fn lemma_cols_before_monotone(spans: Seq<StyledSpan>, j: int, k: int)
    requires
        0 <= j <= k,
    ensures
        cols_before(spans, j) <= cols_before(spans, k),
    decreases k - j,
{
    if j < k {
        lemma_cols_before_monotone(spans, j, k - 1);
    }
}

/// The source range `[start, end]` of span `k`, if the line has it.
pub open spec fn span_range(line: StyledLine, k: int) -> Option<(int, int)> {
    if 0 <= k < line.spans@.len() {
        Some((cols_before(line.spans@, k), cols_before(line.spans@, k + 1)))
    } else {
        None
    }
}

/// The source columns span `span_idx` covers.
pub fn span_source_range(line: &StyledLine, span_idx: usize) -> (r: Option<(usize, usize)>)
    requires
        line_cols_fit(*line),
    ensures
        r matches Some((s, e)) ==> span_range(*line, span_idx as int) == Some((s as int, e as int)),
        r is None <==> span_range(*line, span_idx as int) is None,
{
    let mut start: usize = 0;
    let mut idx: usize = 0;
    while idx < line.spans.len()
        invariant
            line_cols_fit(*line),
            idx <= line.spans@.len(),
            start as int == cols_before(line.spans@, idx as int),
            idx <= span_idx,
        decreases line.spans@.len() - idx,
    {
        proof {
            lemma_cols_before_monotone(line.spans@, idx + 1, line.spans@.len() as int);
        }
        let end = source_col_after_span(&line.spans[idx], start);
        if idx == span_idx {
            return Some((start, end));
        }
        start = end;
        idx = idx + 1;
    }
    None
}

/// Whether `col` lies within `[start, end]`.
pub fn col_touches_range(col: usize, start: usize, end: usize) -> (r: bool)
    ensures
        r == (start <= col <= end),
{
    col >= start && col <= end
}

/// The cursor at `col` touches span `k`.
pub open spec fn touches(line: StyledLine, k: int, col: int) -> bool {
    match span_range(line, k) {
        Some((s, e)) => s <= col <= e,
        None => false,
    }
}

/// Span `k` is formatted content (not markup) whose markup is hidden until
/// the cursor reaches it.
pub open spec fn is_content(line: StyledLine, k: int) -> bool {
    0 <= k < line.spans@.len() && {
        let s = line.spans@[k];
        !s.is_syntax && (s.bold || s.italic || s.is_code || s.is_link || s.is_math
            || s.is_heading || line.is_blockquote)
    }
}

/// Span `k` is markup.
pub open spec fn is_syntax_at(line: StyledLine, k: int) -> bool {
    0 <= k < line.spans@.len() && line.spans@[k].is_syntax
}

/// The markup span `k` belongs to the content span `c` next to it, and the
/// cursor touches that content or the markup on its far side.
pub open spec fn side_touched(line: StyledLine, k: int, c: int, col: int) -> bool {
    is_content(line, c) && (touches(line, c, col) || {
        let other = if c > k {
            c + 1
        } else if c >= 1 {
            c - 1
        } else {
            0
        };
        is_syntax_at(line, other) && touches(line, other, col)
    })
}

/// Whether span `k` shows its source because the cursor at `col` is editing
/// it: the cursor touches it; or it is markup around content the cursor
/// touches (or around content whose other markup the cursor touches); or it
/// is content whose markup on either side the cursor touches.
pub open spec fn inline_edit_target(line: StyledLine, k: int, col: int) -> bool {
    0 <= k < line.spans@.len() && (touches(line, k, col) || if line.spans@[k].is_syntax {
        (k > 0 && side_touched(line, k, k - 1, col)) || side_touched(line, k, k + 1, col)
    } else if is_content(line, k) {
        (k > 0 && is_syntax_at(line, k - 1) && touches(line, k - 1, col)) || (is_syntax_at(
            line,
            k + 1,
        ) && touches(line, k + 1, col))
    } else {
        false
    })
}

fn touches_at(line: &StyledLine, k: usize, col: usize) -> (r: bool)
    requires
        line_cols_fit(*line),
    ensures
        r == touches(*line, k as int, col as int),
{
    match span_source_range(line, k) {
        Some((s, e)) => col_touches_range(col, s, e),
        None => false,
    }
}

fn content_at(line: &StyledLine, k: usize) -> (r: bool)
    ensures
        r == is_content(*line, k as int),
{
    if k < line.spans.len() {
        let s = &line.spans[k];
        !s.is_syntax && (s.bold || s.italic || s.is_code || s.is_link || s.is_math
            || s.is_heading || line.is_blockquote)
    } else {
        false
    }
}

fn syntax_at(line: &StyledLine, k: usize) -> (r: bool)
    ensures
        r == is_syntax_at(*line, k as int),
{
    k < line.spans.len() && line.spans[k].is_syntax
}

fn check_side(line: &StyledLine, k: usize, c: usize, col: usize) -> (r: bool)
    requires
        line_cols_fit(*line),
    ensures
        r == side_touched(*line, k as int, c as int, col as int),
{
    if content_at(line, c) {
        let n = line.spans.len();
        assert(c < n);
        if touches_at(line, c, col) {
            return true;
        }
        let other = if c > k {
            c + 1
        } else {
            c.saturating_sub(1)
        };
        if syntax_at(line, other) && touches_at(line, other, col) {
            return true;
        }
    }
    false
}

/// Whether span `span_idx` is being edited inline with the cursor at
/// `active_col`, so it should show its source.
pub fn span_is_inline_edit_target(line: &StyledLine, span_idx: usize, active_col: usize) -> (r: bool)
    requires
        line_cols_fit(*line),
    ensures
        r == inline_edit_target(*line, span_idx as int, active_col as int),
{
    if span_idx >= line.spans.len() {
        return false;
    }
    if touches_at(line, span_idx, active_col) {
        return true;
    }
    if line.spans[span_idx].is_syntax {
        if span_idx > 0 && check_side(line, span_idx, span_idx - 1, active_col) {
            return true;
        }
        if check_side(line, span_idx, span_idx + 1, active_col) {
            return true;
        }
    } else if content_at(line, span_idx) {
        if span_idx > 0 && syntax_at(line, span_idx - 1) && touches_at(
            line,
            span_idx - 1,
            active_col,
        ) {
            return true;
        }
        if syntax_at(line, span_idx + 1) && touches_at(line, span_idx + 1, active_col) {
            return true;
        }
    }
    false
}

/// The text span `span_idx` shows: its source when its block is being edited
/// or the cursor is editing it inline, its rendered form otherwise; empty for
/// a span the line does not have.
pub fn span_visible_text<'a>(
    line: &'a StyledLine,
    span_idx: usize,
    block_editing: bool,
    active_col: Option<usize>,
) -> (r: &'a str)
    requires
        line_cols_fit(*line),
    ensures
        span_idx < line.spans@.len() ==> ({
            let editing = block_editing || (active_col matches Some(c) && inline_edit_target(
                *line,
                span_idx as int,
                c as int,
            ));
            r@ == (if editing {
                line.spans@[span_idx as int].text@
            } else {
                line.spans@[span_idx as int].rendered@
            })
        }),
        span_idx >= line.spans@.len() ==> r@ == Seq::<char>::empty(),
{
    if span_idx >= line.spans.len() {
        let e = "";
        proof {
            reveal_strlit("");
        }
        return e;
    }
    let span_editing = block_editing || match active_col {
        Some(col) => span_is_inline_edit_target(line, span_idx, col),
        None => false,
    };
    line.spans[span_idx].visible_text(span_editing)
}

/// Whether a line belongs to the block being edited as a whole (code, math
/// and table blocks are edited as a whole while focused).
pub fn is_block_editing_line(line: &StyledLine, active_block_id: Option<usize>, focused: bool) -> (r: bool)
    ensures
        r == (focused && active_block_id == Some(line.block_id) && (line.is_code_block
            || line.is_math_block || line.is_table_row)),
{
    focused && match active_block_id {
        Some(b) => b == line.block_id,
        None => false,
    } && (line.is_code_block || line.is_math_block || line.is_table_row)
}

/// Whether line `line_idx` opens its block: it exists and the line before it
/// (if any) belongs to another block.
pub fn is_first_block_line(lines: &[StyledLine], line_idx: usize) -> (r: bool)
    ensures
        r == (line_idx < lines@.len() && (line_idx == 0 || lines@[line_idx - 1].block_id
            != lines@[line_idx as int].block_id)),
{
    if line_idx >= lines.len() {
        return false;
    }
    let prev = if line_idx > 0 {
        line_idx - 1
    } else {
        0
    };
    !(prev < lines.len() && lines[prev].block_id == lines[line_idx].block_id && prev != line_idx)
}

// ---------------------------------------------------------------------------
// Anchors, headings and block menus
// ---------------------------------------------------------------------------

/// What `str::parse::<usize>` accepts: an optional `+`, then one or more
/// ASCII digits whose value fits in a `usize`.
pub open spec fn parse_usize_spec(s: Seq<char>) -> Option<usize> {
    let d = if s.len() > 0 && s[0] == '+' {
        s.drop_first()
    } else {
        s
    };
    if d.len() > 0 && all_digits(d) && digits_value(d) <= usize::MAX {
        Some(digits_value(d) as usize)
    } else {
        None
    }
}

/// Parse a number as `str::parse::<usize>` does.
pub fn parse_usize(s: &Vec<char>) -> (r: Option<usize>)
    ensures
        r == parse_usize_spec(s@),
{
    let start: usize = if s.len() > 0 && s[0] == '+' {
        1
    } else {
        0
    };
    let ghost d = if s@.len() > 0 && s@[0] == '+' {
        s@.drop_first()
    } else {
        s@
    };
    assert(d =~= s@.skip(start as int));
    if start >= s.len() {
        assert(d.len() == 0);
        return None;
    }
    let max: u128 = usize::MAX as u128;
    let mut acc: u128 = 0;
    let mut i: usize = start;
    while i < s.len()
        invariant
            start <= i <= s@.len(),
            start < s@.len(),
            max == usize::MAX,
            d == s@.skip(start as int),
            d == (if s@.len() > 0 && s@[0] == '+' {
                s@.drop_first()
            } else {
                s@
            }),
            all_digits(d.take(i - start)),
            acc as nat == digits_value(d.take(i - start)),
            acc <= max,
        decreases s@.len() - i,
    {
        let c = s[i];
        let ghost k = i - start;
        assert(d[k] == c);
        if !('0' <= c && c <= '9') {
            assert(!all_digits(d)) by {
                assert(!is_digit(d[k]));
            }
            return None;
        }
        assert(d.take(k + 1).drop_last() =~= d.take(k));
        assert(d.take(k + 1).last() == c);
        acc = acc * 10 + (c as u32 - 0x30) as u128;
        assert(digits_value(d.take(k + 1)) == digits_value(d.take(k)) * 10 + digit_of(c));
        assert(all_digits(d.take(k + 1))) by {
            assert forall|j: int| 0 <= j < k + 1 implies is_digit(#[trigger] d.take(k + 1)[j]) by {
                if j < k {
                    assert(d.take(k + 1)[j] == d.take(k)[j]);
                }
            }
        }
        if acc > max {
            proof {
                if all_digits(d) {
                    lemma_digits_monotone(d, k + 1);
                }
            }
            return None;
        }
        i = i + 1;
    }
    assert(d.take(i - start) =~= d);
    Some(acc as usize)
}

/// The number an anchor id carries after `prefix` (`equation-3` gives three
/// for the prefix `equation-`).
pub open spec fn number_after(id: Option<String>, prefix: Seq<char>) -> Option<usize> {
    match id {
        Some(i) => if starts_with(i@, prefix) {
            parse_usize_spec(i@.skip(prefix.len() as int))
        } else {
            None
        },
        None => None,
    }
}

/// The anchor number of a line's first span, if the line has one.
pub open spec fn line_number(line: StyledLine, prefix: Seq<char>) -> Option<usize> {
    if line.spans@.len() == 0 {
        None
    } else {
        number_after(line.spans@[0].id, prefix)
    }
}

fn id_number(id: &Option<String>, prefix: &Vec<char>) -> (r: Option<usize>)
    ensures
        r == number_after(*id, prefix@),
{
    match id {
        Some(i) => {
            let chars = chars_of(i.as_str());
            if has_prefix(&chars, prefix) {
                let rest = slice_chars(&chars, prefix.len(), chars.len());
                parse_usize(&rest)
            } else {
                None
            }
        },
        None => None,
    }
}

/// The number in the anchor id of line `start`'s first span after `prefix`.
pub fn block_number_from_start(lines: &[StyledLine], start: usize, prefix: &str) -> (r: Option<
    usize,
>)
    ensures
        r == (if start < lines@.len() {
            line_number(lines@[start as int], prefix@)
        } else {
            None
        }),
{
    if start >= lines.len() {
        return None;
    }
    let line = &lines[start];
    if line.spans.len() == 0 {
        return None;
    }
    let p = chars_of(prefix);
    id_number(&line.spans[0].id, &p)
}

/// The first line of block `block_id`, if any.
pub open spec fn first_line_of_block(lines: Seq<StyledLine>, block_id: usize) -> Option<int>
    decreases lines.len(),
{
    if lines.len() == 0 {
        None
    } else if lines[0].block_id == block_id {
        Some(0)
    } else {
        match first_line_of_block(lines.drop_first(), block_id) {
            Some(i) => Some(i + 1),
            None => None,
        }
    }
}

proof fn lemma_first_line_of_block(lines: Seq<StyledLine>, block_id: usize)
    ensures
        first_line_of_block(lines, block_id) matches Some(i) ==> 0 <= i < lines.len()
            && lines[i].block_id == block_id && (forall|j: int|
            0 <= j < i ==> lines[j].block_id != block_id),
        first_line_of_block(lines, block_id) is None ==> (forall|j: int|
            0 <= j < lines.len() ==> lines[j].block_id != block_id),
    decreases lines.len(),
{
    if lines.len() > 0 && lines[0].block_id != block_id {
        lemma_first_line_of_block(lines.drop_first(), block_id);
        assert forall|j: int| 1 <= j < lines.len() implies lines[j] == lines.drop_first()[j - 1] by {}
    }
}

/// The equation number of block `block_id`: from the `equation-N` anchor on
/// the first span of the block's first line.
pub fn get_equation_number(lines: &[StyledLine], block_id: usize) -> (r: Option<usize>)
    ensures
        r == (match first_line_of_block(lines@, block_id) {
            Some(i) => line_number(lines@[i], "equation-"@),
            None => None,
        }),
{
    proof {
        lemma_first_line_of_block(lines@, block_id);
    }
    let mut i: usize = 0;
    while i < lines.len()
        invariant
            i <= lines@.len(),
            forall|j: int| 0 <= j < i ==> lines@[j].block_id != block_id,
            first_line_of_block(lines@, block_id) matches Some(k) ==> 0 <= k < lines@.len()
                && lines@[k].block_id == block_id && (forall|j: int|
                0 <= j < k ==> lines@[j].block_id != block_id),
            first_line_of_block(lines@, block_id) is None ==> (forall|j: int|
                0 <= j < lines@.len() ==> lines@[j].block_id != block_id),
        decreases lines@.len() - i,
    {
        if lines[i].block_id == block_id {
            return block_number_from_start(lines, i, "equation-");
        }
        i = i + 1;
    }
    None
}

/// The figure number of an image span, from its `figure-N` anchor.
pub fn get_image_number(span: &StyledSpan) -> (r: Option<usize>)
    ensures
        r == number_after(span.id, "figure-"@),
{
    let p = chars_of("figure-");
    id_number(&span.id, &p)
}

/// Some span of the line satisfies `pred`.
pub open spec fn any_span(line: StyledLine, pred: spec_fn(StyledSpan) -> bool) -> bool {
    exists|k: int| 0 <= k < line.spans@.len() && pred(#[trigger] line.spans@[k])
}

/// A heading marker: markup whose source starts with `#`.
pub open spec fn is_heading_marker(s: StyledSpan) -> bool {
    s.is_syntax && starts_with(s.text@, seq!['#'])
}

/// A link whose source starts with `pdf://`.
pub open spec fn is_pdf_citation(s: StyledSpan) -> bool {
    s.is_link && starts_with(s.text@, "pdf://"@)
}

/// Whether the line is a heading (it carries a `#` marker).
pub fn is_heading_line(line: &StyledLine) -> (r: bool)
    ensures
        r == any_span(*line, |s: StyledSpan| is_heading_marker(s)),
{
    let hash: Vec<char> = vec!['#'];
    let mut k: usize = 0;
    while k < line.spans.len()
        invariant
            k <= line.spans@.len(),
            hash@ == seq!['#'],
            forall|j: int| 0 <= j < k ==> !is_heading_marker(#[trigger] line.spans@[j]),
        decreases line.spans@.len() - k,
    {
        let span = &line.spans[k];
        if span.is_syntax && has_prefix(&chars_of(span.visible_text(true)), &hash) {
            assert(is_heading_marker(line.spans@[k as int]));
            return true;
        }
        k = k + 1;
    }
    false
}

/// Whether the line holds a task checkbox.
pub fn is_checkbox_line(line: &StyledLine) -> (r: bool)
    ensures
        r == any_span(*line, |s: StyledSpan| s.is_checkbox),
{
    let mut k: usize = 0;
    while k < line.spans.len()
        invariant
            k <= line.spans@.len(),
            forall|j: int| 0 <= j < k ==> !(#[trigger] line.spans@[j]).is_checkbox,
        decreases line.spans@.len() - k,
    {
        if line.spans[k].is_checkbox {
            assert(line.spans@[k as int].is_checkbox);
            return true;
        }
        k = k + 1;
    }
    false
}

/// Whether the line cites a PDF (it holds a `pdf://` link).
pub fn is_pdf_citation_line(line: &StyledLine) -> (r: bool)
    ensures
        r == any_span(*line, |s: StyledSpan| is_pdf_citation(s)),
{
    let scheme = chars_of("pdf://");
    let mut k: usize = 0;
    while k < line.spans.len()
        invariant
            k <= line.spans@.len(),
            scheme@ == "pdf://"@,
            forall|j: int| 0 <= j < k ==> !is_pdf_citation(#[trigger] line.spans@[j]),
        decreases line.spans@.len() - k,
    {
        let span = &line.spans[k];
        if span.is_link && has_prefix(&chars_of(span.visible_text(true)), &scheme) {
            assert(is_pdf_citation(line.spans@[k as int]));
            return true;
        }
        k = k + 1;
    }
    false
}

/// The commands a block's context menu offers.
#[derive(Debug, Clone, Copy, PartialEq, Eq)]
pub enum EditorBlockContextMenuItem {
    CopyCode,
    SetCodeLanguage,
    InsertRowAbove,
    InsertRowBelow,
    DeleteRow,
    InsertColumnLeft,
    InsertColumnRight,
    DeleteColumn,
    ConvertQuoteToParagraph,
    ConvertToH1,
    ConvertToH2,
    ConvertToH3,
    ConvertToParagraph,
    ToggleCheckbox,
    RemoveCheckbox,
    OpenPdfCitation,
}

/// The context menu of a line, chosen by the first of: code block, table
/// row, block quote, heading, checkbox, PDF citation.
pub open spec fn block_menu(line: StyledLine) -> Option<Seq<EditorBlockContextMenuItem>> {
    if line.is_code_block {
        Some(
            seq![EditorBlockContextMenuItem::CopyCode, EditorBlockContextMenuItem::SetCodeLanguage],
        )
    } else if line.is_table_row {
        Some(
            seq![
                EditorBlockContextMenuItem::InsertRowAbove,
                EditorBlockContextMenuItem::InsertRowBelow,
                EditorBlockContextMenuItem::DeleteRow,
                EditorBlockContextMenuItem::InsertColumnLeft,
                EditorBlockContextMenuItem::InsertColumnRight,
                EditorBlockContextMenuItem::DeleteColumn,
            ],
        )
    } else if line.is_blockquote {
        Some(seq![EditorBlockContextMenuItem::ConvertQuoteToParagraph])
    } else if any_span(line, |s: StyledSpan| is_heading_marker(s)) {
        Some(
            seq![
                EditorBlockContextMenuItem::ConvertToH1,
                EditorBlockContextMenuItem::ConvertToH2,
                EditorBlockContextMenuItem::ConvertToH3,
                EditorBlockContextMenuItem::ConvertToParagraph,
            ],
        )
    } else if any_span(line, |s: StyledSpan| s.is_checkbox) {
        Some(
            seq![
                EditorBlockContextMenuItem::ToggleCheckbox,
                EditorBlockContextMenuItem::RemoveCheckbox,
            ],
        )
    } else if any_span(line, |s: StyledSpan| is_pdf_citation(s)) {
        Some(seq![EditorBlockContextMenuItem::OpenPdfCitation])
    } else {
        None
    }
}

/// The context menu for line `line_idx`, or `None` for a plain line or one
/// the document does not have.
pub fn get_block_context_menu_items(lines: &[StyledLine], line_idx: usize) -> (r: Option<
    Vec<EditorBlockContextMenuItem>,
>)
    ensures
        line_idx >= lines@.len() ==> r is None,
        line_idx < lines@.len() ==> match block_menu(lines@[line_idx as int]) {
            Some(items) => r matches Some(v) && v@ == items,
            None => r is None,
        },
{
    if line_idx >= lines.len() {
        return None;
    }
    let line = &lines[line_idx];
    let r = if line.is_code_block {
        Some(vec![EditorBlockContextMenuItem::CopyCode, EditorBlockContextMenuItem::SetCodeLanguage])
    } else if line.is_table_row {
        Some(
            vec![
                EditorBlockContextMenuItem::InsertRowAbove,
                EditorBlockContextMenuItem::InsertRowBelow,
                EditorBlockContextMenuItem::DeleteRow,
                EditorBlockContextMenuItem::InsertColumnLeft,
                EditorBlockContextMenuItem::InsertColumnRight,
                EditorBlockContextMenuItem::DeleteColumn,
            ],
        )
    } else if line.is_blockquote {
        Some(vec![EditorBlockContextMenuItem::ConvertQuoteToParagraph])
    } else if is_heading_line(line) {
        Some(
            vec![
                EditorBlockContextMenuItem::ConvertToH1,
                EditorBlockContextMenuItem::ConvertToH2,
                EditorBlockContextMenuItem::ConvertToH3,
                EditorBlockContextMenuItem::ConvertToParagraph,
            ],
        )
    } else if is_checkbox_line(line) {
        Some(vec![EditorBlockContextMenuItem::ToggleCheckbox, EditorBlockContextMenuItem::RemoveCheckbox])
    } else if is_pdf_citation_line(line) {
        Some(vec![EditorBlockContextMenuItem::OpenPdfCitation])
    } else {
        None
    };
    assert(r matches Some(v) ==> v@ =~= block_menu(*line)->0);
    r
}

/// Placeholder lines shown before highlighting finishes: one plain span per
/// line of `text`, each line its own block numbered by position.
pub fn plain_highlight_placeholders(text: &str) -> (lines: Vec<StyledLine>)
    ensures
        lines@.len() == split_on(text@, '\n').len(),
        forall|i: int|
            0 <= i < lines@.len() ==> {
                let l = #[trigger] lines@[i];
                &&& l.block_id == i
                &&& l.spans@.len() == 1
                &&& l.spans@[0].text@ == split_on(text@, '\n')[i]
                &&& l.spans@[0].rendered@ == split_on(text@, '\n')[i]
                &&& !l.is_code_block && !l.is_math_block && !l.is_table_row && !l.is_blockquote
            },
{
    let chars = chars_of(text);
    let parts = split_chars(&chars, '\n');
    let mut lines: Vec<StyledLine> = Vec::new();
    let mut i: usize = 0;
    while i < parts.len()
        invariant
            chars@ == text@,
            parts@.len() == split_on(text@, '\n').len(),
            forall|j: int| 0 <= j < parts@.len() ==> #[trigger] parts@[j]@ == split_on(text@, '\n')[j],
            i <= parts@.len(),
            lines@.len() == i,
            forall|j: int|
                0 <= j < i ==> {
                    let l = #[trigger] lines@[j];
                    &&& l.block_id == j
                    &&& l.spans@.len() == 1
                    &&& l.spans@[0].text@ == split_on(text@, '\n')[j]
                    &&& l.spans@[0].rendered@ == split_on(text@, '\n')[j]
                    &&& !l.is_code_block && !l.is_math_block && !l.is_table_row && !l.is_blockquote
                },
        decreases parts@.len() - i,
    {
        let mut styled = StyledLine::new();
        styled.block_id = i;
        let line_text = string_of(&parts[i]);
        styled.spans.push(StyledSpan::plain(line_text.as_str()));
        lines.push(styled);
        i = i + 1;
    }
    lines
}

} // verus!
