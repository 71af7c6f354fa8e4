//! Markdown rendering: the CJK-friendly emphasis preprocessing pass, the
//! code-block highlighting pass over the parser's events, and the footnote
//! back-linking pass over the produced HTML.
use vstd::prelude::*;
use pulldown_cmark::{CodeBlockKind, CowStr, Event, Tag, TagEnd};
use crate::footnotes::{enhance_footnotes, footnotes_linked};
use crate::highlight::{highlight_code, highlighted_block};
use crate::text::{
    ascii_punctuation, chars_to_string, copy_range, is_ascii_punctuation, is_whitespace,
    join_with, lemma_join_split, lemma_run_len_bound, lemma_run_len_positive,
    lemma_split_char_nonempty, push_chars, push_range, push_str, run_end, run_len, split_char,
    split_on, str_to_chars, unicode_whitespace, utf8_len, utf8_width,
};

verus! {

/// Zero-width space (U+200B). It belongs to the Unicode `Cf` (format)
/// category, so CommonMark treats it as an ordinary character: neither
/// whitespace nor punctuation.
pub const ZWSP: char = '\u{200B}';

/// CJK "letters" (Hangul, Han ideographs, Kana): characters that CommonMark
/// classifies as ordinary characters.
pub open spec fn cjk_letter(c: char) -> bool {
    ||| ('\u{1100}' <= c && c <= '\u{11FF}')
    ||| ('\u{3040}' <= c && c <= '\u{30FF}')
    ||| ('\u{3130}' <= c && c <= '\u{318F}')
    ||| ('\u{3400}' <= c && c <= '\u{4DBF}')
    ||| ('\u{4E00}' <= c && c <= '\u{9FFF}')
    ||| ('\u{A960}' <= c && c <= '\u{A97F}')
    ||| ('\u{AC00}' <= c && c <= '\u{D7A3}')
    ||| ('\u{D7B0}' <= c && c <= '\u{D7FF}')
    ||| ('\u{F900}' <= c && c <= '\u{FAFF}')
    ||| ('\u{20000}' <= c && c <= '\u{2FA1F}')
}

pub fn is_cjk(c: char) -> (r: bool)
    ensures
        r == cjk_letter(c),
{
    ('\u{1100}' <= c && c <= '\u{11FF}') || ('\u{3040}' <= c && c <= '\u{30FF}') || ('\u{3130}'
        <= c && c <= '\u{318F}') || ('\u{3400}' <= c && c <= '\u{4DBF}') || ('\u{4E00}' <= c
        && c <= '\u{9FFF}') || ('\u{A960}' <= c && c <= '\u{A97F}') || ('\u{AC00}' <= c && c
        <= '\u{D7A3}') || ('\u{D7B0}' <= c && c <= '\u{D7FF}') || ('\u{F900}' <= c && c
        <= '\u{FAFF}') || ('\u{20000}' <= c && c <= '\u{2FA1F}')
}

/// Characters treated as punctuation when deciding whether an emphasis
/// delimiter run is flanking: ASCII punctuation plus the CJK fullwidth/wide
/// punctuation common next to emphasis in Korean/Japanese/Chinese prose.
pub open spec fn md_punct(c: char) -> bool {
    ||| ascii_punctuation(c)
    ||| c == '\u{3001}'
    ||| c == '\u{3002}'
    ||| ('\u{3008}' <= c && c <= '\u{3011}')
    ||| ('\u{3014}' <= c && c <= '\u{301B}')
    ||| c == '\u{FF01}'
    ||| c == '\u{FF08}'
    ||| c == '\u{FF09}'
    ||| c == '\u{FF0C}'
    ||| c == '\u{FF1A}'
    ||| c == '\u{FF1B}'
    ||| c == '\u{FF1F}'
}

pub fn is_md_punct(c: char) -> (r: bool)
    ensures
        r == md_punct(c),
{
    is_ascii_punctuation(c) || c == '\u{3001}' || c == '\u{3002}' || ('\u{3008}' <= c && c
        <= '\u{3011}') || ('\u{3014}' <= c && c <= '\u{301B}') || c == '\u{FF01}' || c
        == '\u{FF08}' || c == '\u{FF09}' || c == '\u{FF0C}' || c == '\u{FF1A}' || c == '\u{FF1B}'
        || c == '\u{FF1F}'
}

pub open spec fn is_delim(c: char) -> bool {
    c == '*' || c == '_'
}

/// What the delimiter run `seg[i..j]` becomes: a zero-width space goes
/// before it when it sits between punctuation and a CJK letter, after it
/// when it sits between a CJK letter and punctuation; a run right after a
/// backslash is left as it is.
pub open spec fn delimiter_piece(seg: Seq<char>, i: int, j: int) -> Seq<char> {
    let run = seg.subrange(i, j);
    let has_prev = i > 0;
    let has_next = j < seg.len();
    if has_prev && seg[i - 1] == '\\' {
        run
    } else if has_prev && md_punct(seg[i - 1]) && has_next && cjk_letter(seg[j]) {
        seq![ZWSP] + run
    } else if has_prev && cjk_letter(seg[i - 1]) && has_next && md_punct(seg[j]) {
        run + seq![ZWSP]
    } else {
        run
    }
}

/// The emphasis fix applied to the plain-text segment `seg`, from index `i` on.
pub open spec fn emphasis_fix_from(seg: Seq<char>, i: int) -> Seq<char>
    decreases seg.len() - i,
{
    if i < 0 || i >= seg.len() {
        Seq::<char>::empty()
    } else if is_delim(seg[i]) {
        let j = i + run_len(seg, i, seg[i]);
        proof {
            lemma_run_len_positive(seg, i, seg[i]);
            lemma_run_len_bound(seg, i, seg[i]);
        }
        delimiter_piece(seg, i, j) + emphasis_fix_from(seg, j)
    } else {
        seq![seg[i]] + emphasis_fix_from(seg, i + 1)
    }
}

/// The emphasis fix applied to a plain-text (non-code) segment.
pub open spec fn emphasis_fix(seg: Seq<char>) -> Seq<char> {
    emphasis_fix_from(seg, 0)
}

/// Inserts zero-width spaces around emphasis delimiter runs that are wedged
/// between a CJK character and a punctuation character within a plain-text
/// (non-code) segment.
fn transform_segment(seg: &Vec<char>, out: &mut Vec<char>)
    ensures
        final(out)@ == old(out)@ + emphasis_fix(seg@),
{
    let ghost out0 = out@;
    let n = seg.len();
    let mut i: usize = 0;
    while i < n
        invariant
            n == seg.len(),
            i <= n,
            out0 + emphasis_fix_from(seg@, 0) == out@ + emphasis_fix_from(seg@, i as int),
        decreases n - i,
    {
        let c = seg[i];
        if c == '*' || c == '_' {
            let start = i;
            let j = run_end(seg, i, c);
            let ghost before = out@;
            let escaped = start > 0 && seg[start - 1] == '\\';
            if !escaped {
                let prev_cjk = start > 0 && is_cjk(seg[start - 1]);
                let next_cjk = j < n && is_cjk(seg[j]);
                let prev_punct = start > 0 && is_md_punct(seg[start - 1]);
                let next_punct = j < n && is_md_punct(seg[j]);
                if prev_punct && next_cjk {
                    out.push(ZWSP);
                    push_range(out, seg, start, j);
                } else if prev_cjk && next_punct {
                    push_range(out, seg, start, j);
                    out.push(ZWSP);
                } else {
                    push_range(out, seg, start, j);
                }
            } else {
                push_range(out, seg, start, j);
            }
            assert(out@ =~= before + delimiter_piece(seg@, start as int, j as int));
            assert(out0 + emphasis_fix_from(seg@, 0) =~= out@ + emphasis_fix_from(seg@, j as int));
            i = j;
        } else {
            let ghost before = out@;
            out.push(c);
            assert(out0 + emphasis_fix_from(seg@, 0) =~= out@ + emphasis_fix_from(
                seg@,
                i + 1,
            ));
            i = i + 1;
        }
    }
}

/// Searching from `k`, the end of the first backtick run of exactly `len`
/// backticks.
pub open spec fn closing_run(s: Seq<char>, k: int, len: nat) -> Option<int>
    decreases s.len() - k,
{
    if k < 0 || k >= s.len() {
        None
    } else if s[k] == '`' {
        let m = k + run_len(s, k, '`');
        if m - k == len {
            Some(m)
        } else {
            proof {
                lemma_run_len_positive(s, k, '`');
                lemma_run_len_bound(s, k, '`');
            }
            closing_run(s, m, len)
        }
    } else {
        closing_run(s, k + 1, len)
    }
}

pub proof fn lemma_closing_run_bound(s: Seq<char>, k: int, len: nat)
    requires
        0 <= k,
    ensures
        closing_run(s, k, len) matches Some(m) ==> k < m <= s.len(),
    decreases s.len() - k,
{
    if k < s.len() {
        if s[k] == '`' {
            lemma_run_len_bound(s, k, '`');
            let m = k + run_len(s, k, '`');
            if m - k != len {
                lemma_closing_run_bound(s, m, len);
            }
        } else {
            lemma_closing_run_bound(s, k + 1, len);
        }
    }
}

/// The emphasis fix applied to one line, from index `i` on, with the plain
/// text since `text_start` still to be transformed. Inline code spans (a
/// backtick run closed by a run of the same length) are copied verbatim; an
/// unclosed backtick run is plain text.
pub open spec fn fix_line_from(s: Seq<char>, text_start: int, i: int) -> Seq<char>
    decreases s.len() - i,
{
    if i < 0 || text_start < 0 || text_start > i || i >= s.len() {
        emphasis_fix(s.subrange(text_start, s.len() as int))
    } else if s[i] == '`' {
        let j = i + run_len(s, i, '`');
        match closing_run(s, j, (j - i) as nat) {
            Some(end) => {
                proof {
                    lemma_run_len_bound(s, i, '`');
                    lemma_closing_run_bound(s, j, (j - i) as nat);
                }
                emphasis_fix(s.subrange(text_start, i)) + s.subrange(i, end) + fix_line_from(
                    s,
                    end,
                    end,
                )
            },
            None => {
                proof {
                    lemma_run_len_positive(s, i, '`');
                    lemma_run_len_bound(s, i, '`');
                }
                fix_line_from(s, text_start, j)
            },
        }
    } else {
        fix_line_from(s, text_start, i + 1)
    }
}

pub open spec fn fix_line(s: Seq<char>) -> Seq<char> {
    fix_line_from(s, 0, 0)
}

fn find_closing_run(s: &Vec<char>, from: usize, len: usize) -> (r: Option<usize>)
    requires
        from <= s.len(),
    ensures
        r matches Some(m) ==> closing_run(s@, from as int, len as nat) == Some(m as int),
        r is None ==> closing_run(s@, from as int, len as nat) is None,
{
    let n = s.len();
    let mut k = from;
    while k < n
        invariant
            n == s.len(),
            from <= k <= n,
            closing_run(s@, from as int, len as nat) == closing_run(s@, k as int, len as nat),
        decreases n - k,
    {
        if s[k] == '`' {
            let m = run_end(s, k, '`');
            if m - k == len {
                return Some(m);
            }
            k = m;
        } else {
            k = k + 1;
        }
    }
    None
}

/// Applies the CJK emphasis fix to a single line, skipping inline code spans.
fn transform_line(line: &Vec<char>, out: &mut Vec<char>)
    ensures
        final(out)@ == old(out)@ + fix_line(line@),
{
    let ghost out0 = out@;
    let n = line.len();
    let mut i: usize = 0;
    let mut text_start: usize = 0;
    while i < n
        invariant
            n == line.len(),
            text_start <= i <= n,
            out0 + fix_line_from(line@, 0, 0) == out@ + fix_line_from(
                line@,
                text_start as int,
                i as int,
            ),
        decreases n - i,
    {
        if line[i] == '`' {
            let j = run_end(line, i, '`');
            let run_len = j - i;
            let close = find_closing_run(line, j, run_len);
            match close {
                Some(end) => {
                    proof {
                        lemma_closing_run_bound(line@, j as int, run_len as nat);
                    }
                    let ghost before = out@;
                    let seg = copy_range(line, text_start, i);
                    transform_segment(&seg, out);
                    push_range(out, line, i, end);
                    assert(out0 + fix_line_from(line@, 0, 0) =~= out@ + fix_line_from(
                        line@,
                        end as int,
                        end as int,
                    ));
                    i = end;
                    text_start = end;
                },
                None => {
                    i = j;
                },
            }
        } else {
            i = i + 1;
        }
    }
    let seg = copy_range(line, text_start, n);
    transform_segment(&seg, out);
}

/// Number of leading whitespace characters of `s`.
pub open spec fn leading_ws(s: Seq<char>) -> nat {
    ws_run(s, 0)
}

pub open spec fn ws_run(s: Seq<char>, i: int) -> nat
    decreases s.len() - i,
{
    if 0 <= i < s.len() && unicode_whitespace(s[i]) {
        1 + ws_run(s, i + 1)
    } else {
        0
    }
}

pub proof fn lemma_ws_run_bound(s: Seq<char>, i: int)
    requires
        0 <= i <= s.len(),
    ensures
        i + ws_run(s, i) <= s.len(),
    decreases s.len() - i,
{
    if i < s.len() && unicode_whitespace(s[i]) {
        lemma_ws_run_bound(s, i + 1);
    }
}

pub open spec fn starts_with(s: Seq<char>, p: Seq<char>) -> bool {
    p.len() <= s.len() && s.take(p.len() as int) == p
}

/// An open fence: its character and the length of its opening run.
pub type FenceSpec = Option<(char, nat)>;

/// Whether `trimmed` (a line without its leading whitespace) closes the fence
/// opened by a run of `flen` characters `fc`.
pub open spec fn closes_fence(trimmed: Seq<char>, fc: char, flen: nat) -> bool {
    &&& run_len(trimmed, 0, fc) >= flen
    &&& forall|k: int| 0 <= k < trimmed.len() ==> #[trigger] trimmed[k] == fc || unicode_whitespace(trimmed[k])
}

/// How the pass sees one line, given the fence state before it: whether it
/// is text (neither inside a fenced block, nor a fence line, nor an indented
/// code line), and the fence state after it.
pub open spec fn line_class(line: Seq<char>, fence: FenceSpec) -> (bool, FenceSpec) {
    let ws = leading_ws(line);
    let trimmed = line.skip(ws as int);
    match fence {
        Some((fc, flen)) => (false, if closes_fence(trimmed, fc, flen) {
            None
        } else {
            fence
        }),
        None => {
            if utf8_len(line.take(ws as int)) < 4 && (starts_with(trimmed, seq!['`', '`', '`'])
                || starts_with(trimmed, seq!['~', '~', '~'])) {
                (false, Some((trimmed[0], run_len(trimmed, 0, trimmed[0]))))
            } else if starts_with(line, seq![' ', ' ', ' ', ' ']) || starts_with(line, seq!['\t']) {
                (false, None)
            } else {
                (true, None)
            }
        },
    }
}

/// The fence state before line `k`.
pub open spec fn fence_before(lines: Seq<Seq<char>>, k: int) -> FenceSpec
    decreases k,
{
    if k <= 0 {
        None
    } else {
        line_class(lines[k - 1], fence_before(lines, k - 1)).1
    }
}

/// Whether line `k` is a text line.
pub open spec fn text_line(lines: Seq<Seq<char>>, k: int) -> bool {
    line_class(lines[k], fence_before(lines, k)).0
}

/// A line of whitespace only (it ends a paragraph).
pub open spec fn blank(line: Seq<char>) -> bool {
    forall|k: int| 0 <= k < line.len() ==> unicode_whitespace(#[trigger] line[k])
}

/// Whether the marker of a block ends at index `k` of `r`: the end of the
/// line, a space or a tab.
pub open spec fn marker_ends(r: Seq<char>, k: int) -> bool {
    k == r.len() || (0 <= k < r.len() && (r[k] == ' ' || r[k] == '\t'))
}

/// An ATX heading line (without its indentation): one to six `#`, then the
/// end of the line, a space or a tab.
pub open spec fn atx_heading(r: Seq<char>) -> bool {
    let h = run_len(r, 0, '#');
    1 <= h <= 6 && marker_ends(r, h as int)
}

/// A thematic break line (without its indentation): at least three of one
/// of `-`, `*`, `_`, with only spaces and tabs besides.
pub open spec fn thematic_break(r: Seq<char>) -> bool {
    &&& r.len() > 0
    &&& (r[0] == '-' || r[0] == '*' || r[0] == '_')
    &&& count_char(r, r[0]) >= 3
    &&& forall|k: int| 0 <= k < r.len() ==> #[trigger] r[k] == r[0] || r[k] == ' ' || r[k] == '\t'
}

/// The number of ASCII digits from index `i` of `r` on.
pub open spec fn digit_run(r: Seq<char>, i: int) -> nat
    decreases r.len() - i,
{
    if 0 <= i < r.len() && '0' <= r[i] && r[i] <= '9' {
        1 + digit_run(r, i + 1)
    } else {
        0
    }
}

/// A list item line (without its indentation): a bullet `-`, `+` or `*`, or
/// one to nine digits and `.` or `)`, then the end of the line, a space or a
/// tab.
pub open spec fn list_item(r: Seq<char>) -> bool {
    ||| (r.len() > 0 && (r[0] == '-' || r[0] == '+' || r[0] == '*') && marker_ends(r, 1))
    ||| ({
        let d = digit_run(r, 0);
        &&& 1 <= d <= 9
        &&& d < r.len()
        &&& (r[d as int] == '.' || r[d as int] == ')')
        &&& marker_ends(r, d + 1int)
    })
}

/// `line` without its leading spaces, when there are at most three of them.
pub open spec fn block_text(line: Seq<char>) -> Option<Seq<char>> {
    let sp = run_len(line, 0, ' ');
    if sp <= 3 {
        Some(line.skip(sp as int))
    } else {
        None
    }
}

/// A line that is a block of its own: an ATX heading or a thematic break.
pub open spec fn single_line_block(line: Seq<char>) -> bool {
    match block_text(line) {
        Some(r) => atx_heading(r) || thematic_break(r),
        None => false,
    }
}

/// A line that starts a new block: a list item or a block quote.
pub open spec fn opens_block(line: Seq<char>) -> bool {
    match block_text(line) {
        Some(r) => list_item(r) || (r.len() > 0 && r[0] == '>'),
        None => false,
    }
}

/// The state of the pass after some lines: the finished units (transformed
/// text blocks and copied code lines, to be joined with newlines), and the
/// text block still being collected.
pub struct CjkPass {
    pub units: Seq<Seq<char>>,
    pub pending: Option<Seq<char>>,
}

/// The pass over the first `k` lines. Consecutive non-blank text lines form
/// one block (a paragraph), transformed as a whole with `fix_line`, so that
/// an inline code span closed on a later line of its paragraph is code; a
/// blank text line is transformed alone; code lines are copied.
pub open spec fn pass_after(lines: Seq<Seq<char>>, k: int) -> CjkPass
    decreases k,
{
    if k <= 0 {
        CjkPass { units: Seq::<Seq<char>>::empty(), pending: None }
    } else {
        let st = pass_after(lines, k - 1);
        let line = lines[k - 1];
        let text = text_line(lines, k - 1);
        let single = if text {
            fix_line(line)
        } else {
            line
        };
        if text && !blank(line) && !single_line_block(line) {
            match st.pending {
                Some(p) => if opens_block(line) {
                    CjkPass { units: st.units.push(fix_line(p)), pending: Some(line) }
                } else {
                    CjkPass { units: st.units, pending: Some(p + seq!['\n'] + line) }
                },
                None => CjkPass { units: st.units, pending: Some(line) },
            }
        } else {
            match st.pending {
                Some(p) => CjkPass { units: st.units.push(fix_line(p)).push(single), pending: None },
                None => CjkPass { units: st.units.push(single), pending: None },
            }
        }
    }
}

/// All units of the pass over `lines`, the last block included.
pub open spec fn finished_units(lines: Seq<Seq<char>>) -> Seq<Seq<char>> {
    let st = pass_after(lines, lines.len() as int);
    match st.pending {
        Some(p) => st.units.push(fix_line(p)),
        None => st.units,
    }
}

/// The CJK-friendly emphasis pass over a whole document: the text is split
/// into lines at `'\n'`; lines inside fenced code blocks, fence lines and
/// indented code lines are copied; each paragraph of text lines gets
/// `fix_line` as a whole.
pub open spec fn cjk_friendly(md: Seq<char>) -> Seq<char> {
    join_with(finished_units(split_char(md, '\n')), seq!['\n'])
}

/// Whether the leading whitespace of `line` (its first `ws` characters)
/// takes fewer than 4 bytes.
fn indent_below_four(line: &Vec<char>, ws: usize) -> (r: bool)
    requires
        ws <= line.len(),
    ensures
        r == (utf8_len(line@.take(ws as int)) < 4),
{
    let mut total: usize = 0;
    let mut i: usize = 0;
    while i < ws
        invariant
            ws <= line.len(),
            i <= ws,
            total == utf8_len(line@.take(i as int)),
            total < 4,
        decreases ws - i,
    {
        let c = line[i];
        let w: usize = if (c as u32) < 0x80 {
            1
        } else if (c as u32) < 0x800 {
            2
        } else if (c as u32) < 0x10000 {
            3
        } else {
            4
        };
        assert(line@.take(i + 1).drop_last() =~= line@.take(i as int));
        total = total + w;
        i = i + 1;
        if total >= 4 {
            proof {
                lemma_utf8_len_monotone(line@.take(ws as int), i as int);
                assert(line@.take(ws as int).take(i as int) =~= line@.take(i as int));
            }
            return false;
        }
    }
    true
}

pub proof fn lemma_utf8_len_monotone(s: Seq<char>, k: int)
    requires
        0 <= k <= s.len(),
    ensures
        utf8_len(s.take(k)) <= utf8_len(s),
    decreases s.len() - k,
{
    if k < s.len() {
        lemma_utf8_len_monotone(s, k + 1);
        assert(s.take(k + 1).drop_last() =~= s.take(k));
    } else {
        assert(s.take(k) =~= s);
    }
}

fn leading_whitespace(s: &Vec<char>) -> (n: usize)
    ensures
        n == leading_ws(s@),
        n <= s.len(),
{
    let mut i: usize = 0;
    while i < s.len() && is_whitespace(s[i])
        invariant
            i <= s.len(),
            ws_run(s@, 0) == i + ws_run(s@, i as int),
        decreases s.len() - i,
    {
        i = i + 1;
    }
    i
}

fn starts_with3(s: &Vec<char>, c: char) -> (r: bool)
    ensures
        r == starts_with(s@, seq![c, c, c]),
{
    let r = s.len() >= 3 && s[0] == c && s[1] == c && s[2] == c;
    proof {
        if s.len() >= 3 {
            if r {
                assert(s@.take(3) =~= seq![c, c, c]);
            } else {
                assert(s@.take(3)[0] == s@[0]);
                assert(s@.take(3)[1] == s@[1]);
                assert(s@.take(3)[2] == s@[2]);
            }
        }
    }
    r
}

fn closes(trimmed: &Vec<char>, fc: char, flen: usize) -> (r: bool)
    ensures
        r == closes_fence(trimmed@, fc, flen as nat),
{
    let run = run_end(trimmed, 0, fc);
    if run < flen {
        return false;
    }
    let mut i: usize = 0;
    while i < trimmed.len()
        invariant
            i <= trimmed.len(),
            forall|k: int| 0 <= k < i ==> #[trigger] trimmed@[k] == fc || unicode_whitespace(trimmed@[k]),
        decreases trimmed.len() - i,
    {
        if !(trimmed[i] == fc || is_whitespace(trimmed[i])) {
            return false;
        }
        i = i + 1;
    }
    true
}

pub open spec fn fence_model(f: Option<(char, usize)>) -> FenceSpec {
    match f {
        Some((c, n)) => Some((c, n as nat)),
        None => None,
    }
}

/// `line_class` of one line.
fn classify_line(line: &Vec<char>, fence: Option<(char, usize)>) -> (r: (bool, Option<(char, usize)>))
    ensures
        r.0 == line_class(line@, fence_model(fence)).0,
        fence_model(r.1) == line_class(line@, fence_model(fence)).1,
{
    let ws = leading_whitespace(line);
    let trimmed = copy_range(line, ws, line.len());
    assert(trimmed@ == line@.skip(ws as int));
    match fence {
        Some((fc, flen)) => {
            if closes(&trimmed, fc, flen) {
                (false, None)
            } else {
                (false, fence)
            }
        },
        None => {
            if indent_below_four(line, ws) && (starts_with3(&trimmed, '`') || starts_with3(
                &trimmed,
                '~',
            )) {
                let fc = trimmed[0];
                let flen = run_end(&trimmed, 0, fc);
                (false, Some((fc, flen)))
            } else if (line.len() >= 4 && line[0] == ' ' && line[1] == ' ' && line[2] == ' '
                && line[3] == ' ') || (line.len() >= 1 && line[0] == '\t') {
                proof {
                    assert(line@.len() >= 4 && line@[0] == ' ' && line@[1] == ' ' && line@[2]
                        == ' ' && line@[3] == ' ' ==> line@.take(4) =~= seq![' ', ' ', ' ', ' ']);
                    assert(line@.len() >= 1 && line@[0] == '\t' ==> line@.take(1) =~= seq!['\t']);
                }
                (false, None)
            } else {
                proof {
                    if line@.len() >= 4 {
                        assert(line@.take(4)[0] == line@[0]);
                        assert(line@.take(4)[1] == line@[1]);
                        assert(line@.take(4)[2] == line@[2]);
                        assert(line@.take(4)[3] == line@[3]);
                    }
                    if line@.len() >= 1 {
                        assert(line@.take(1)[0] == line@[0]);
                    }
                }
                (true, None)
            }
        },
    }
}

fn is_blank(line: &Vec<char>) -> (r: bool)
    ensures
        r == blank(line@),
{
    let ws = leading_whitespace(line);
    proof {
        lemma_ws_run_prefix(line@, 0);
    }
    ws == line.len()
}

proof fn lemma_ws_run_prefix(s: Seq<char>, i: int)
    requires
        0 <= i <= s.len(),
    ensures
        forall|q: int| i <= q < i + ws_run(s, i) ==> unicode_whitespace(#[trigger] s[q]),
        i + ws_run(s, i) < s.len() ==> !unicode_whitespace(s[i + ws_run(s, i)]),
        i + ws_run(s, i) <= s.len(),
    decreases s.len() - i,
{
    if i < s.len() && unicode_whitespace(s[i]) {
        lemma_ws_run_prefix(s, i + 1);
    }
}

fn marker_ends_at(r: &Vec<char>, k: usize) -> (b: bool)
    ensures
        b == marker_ends(r@, k as int),
{
    k == r.len() || (k < r.len() && (r[k] == ' ' || r[k] == '\t'))
}

fn is_atx_heading(r: &Vec<char>) -> (b: bool)
    ensures
        b == atx_heading(r@),
{
    let h = run_end(r, 0, '#');
    1 <= h && h <= 6 && marker_ends_at(r, h)
}

fn is_thematic_break(r: &Vec<char>) -> (b: bool)
    ensures
        b == thematic_break(r@),
{
    if r.len() == 0 {
        return false;
    }
    let c = r[0];
    if !(c == '-' || c == '*' || c == '_') {
        return false;
    }
    let mut n: usize = 0;
    let mut i: usize = 0;
    while i < r.len()
        invariant
            i <= r.len(),
            r.len() > 0,
            c == r@[0],
            n == count_char(r@.take(i as int), c),
            n <= i,
            forall|k: int| 0 <= k < i ==> #[trigger] r@[k] == c || r@[k] == ' ' || r@[k] == '\t',
        decreases r.len() - i,
    {
        assert(r@.take(i + 1).drop_last() =~= r@.take(i as int));
        if r[i] == c {
            n = n + 1;
        } else if !(r[i] == ' ' || r[i] == '\t') {
            return false;
        }
        i = i + 1;
    }
    assert(r@.take(r.len() as int) =~= r@);
    n >= 3
}

fn digit_run_end(r: &Vec<char>) -> (d: usize)
    ensures
        d == digit_run(r@, 0),
        d <= r.len(),
{
    let mut i: usize = 0;
    while i < r.len() && '0' <= r[i] && r[i] <= '9'
        invariant
            i <= r.len(),
            digit_run(r@, 0) == i + digit_run(r@, i as int),
        decreases r.len() - i,
    {
        i = i + 1;
    }
    i
}

fn is_list_item(r: &Vec<char>) -> (b: bool)
    ensures
        b == list_item(r@),
{
    if r.len() > 0 && (r[0] == '-' || r[0] == '+' || r[0] == '*') && marker_ends_at(r, 1) {
        return true;
    }
    let d = digit_run_end(r);
    1 <= d && d <= 9 && d < r.len() && (r[d] == '.' || r[d] == ')') && marker_ends_at(r, d + 1)
}

/// The line without its leading spaces, when there are at most three.
fn block_text_of(line: &Vec<char>) -> (r: Option<Vec<char>>)
    ensures
        match r {
            Some(t) => block_text(line@) == Some(t@),
            None => block_text(line@) is None,
        },
{
    let sp = run_end(line, 0, ' ');
    if sp <= 3 {
        let t = copy_range(line, sp, line.len());
        assert(t@ =~= line@.skip(sp as int));
        Some(t)
    } else {
        None
    }
}

fn is_single_line_block(line: &Vec<char>) -> (b: bool)
    ensures
        b == single_line_block(line@),
{
    match block_text_of(line) {
        Some(r) => is_atx_heading(&r) || is_thematic_break(&r),
        None => false,
    }
}

fn is_block_opener(line: &Vec<char>) -> (b: bool)
    ensures
        b == opens_block(line@),
{
    match block_text_of(line) {
        Some(r) => is_list_item(&r) || (r.len() > 0 && r[0] == '>'),
        None => false,
    }
}

/// Appends a unit (transformed when `fixed`) to the units joined so far.
fn emit_unit(
    out: &mut Vec<char>,
    has_units: bool,
    unit: &Vec<char>,
    fixed: bool,
    Ghost(units): Ghost<Seq<Seq<char>>>,
)
    requires
        old(out)@ == join_with(units, seq!['\n']),
        has_units == (units.len() > 0),
    ensures
        final(out)@ == join_with(
            units.push(
                if fixed {
                    fix_line(unit@)
                } else {
                    unit@
                },
            ),
            seq!['\n'],
        ),
{
    let ghost u = if fixed {
        fix_line(unit@)
    } else {
        unit@
    };
    let ghost before = out@;
    if has_units {
        out.push('\n');
    }
    if fixed {
        transform_line(unit, out);
    } else {
        push_chars(out, unit);
    }
    proof {
        let np = units.push(u);
        assert(np.drop_last() =~= units);
        if units.len() == 0 {
            assert(before =~= Seq::<char>::empty());
            assert(out@ =~= u);
        } else {
            assert(out@ =~= before + seq!['\n'] + u);
        }
    }
}

/// Works around CommonMark's emphasis flanking rules being unfriendly to CJK
/// text. A `**`/`*`/`__`/`_` delimiter run that sits directly between a
/// punctuation character and a CJK character is neither left- nor
/// right-flanking, so it cannot open or close emphasis; for example the
/// closing `**` of `**가상 메모리(Virtual Memory)**라는` is preceded by `)` and
/// followed by `라`, and the literal `**` leaks into the output.
///
/// A zero-width space is inserted between the delimiter run and the adjacent
/// punctuation; it is an ordinary character, which restores the run's
/// flanking status, and it is invisible in the rendered output. Code (fenced
/// blocks, indented blocks and inline code spans, also those running over
/// several lines of a paragraph) is left untouched.
pub fn cjk_friendly_emphasis(md: &str) -> (r: String)
    ensures
        r@ == cjk_friendly(md@),
{
    let chars = str_to_chars(md);
    let lines = split_on(&chars, '\n');
    let ghost ls = split_char(md@, '\n');
    let mut out: Vec<char> = Vec::new();
    let mut has_units = false;
    let mut pending: Option<Vec<char>> = None;
    let mut fence: Option<(char, usize)> = None;
    let mut k: usize = 0;
    while k < lines.len()
        invariant
            ls == split_char(md@, '\n'),
            lines.len() == ls.len(),
            forall|q: int| 0 <= q < lines.len() ==> #[trigger] lines[q]@ == ls[q],
            k <= lines.len(),
            fence_model(fence) == fence_before(ls, k as int),
            out@ == join_with(pass_after(ls, k as int).units, seq!['\n']),
            has_units == (pass_after(ls, k as int).units.len() > 0),
            match pending {
                Some(p) => pass_after(ls, k as int).pending == Some(p@),
                None => pass_after(ls, k as int).pending is None,
            },
        decreases lines.len() - k,
    {
        let ghost st = pass_after(ls, k as int);
        let line = &lines[k];
        let (text, next_fence) = classify_line(line, fence);
        let blank_line = is_blank(line);
        let single = is_single_line_block(line);
        if text && !blank_line && !single {
            match pending {
                Some(mut p) => {
                    if is_block_opener(line) {
                        emit_unit(&mut out, has_units, &p, true, Ghost(st.units));
                        has_units = true;
                        pending = Some(copy_range(line, 0, line.len()));
                        assert(line@.subrange(0, line@.len() as int) =~= line@);
                    } else {
                        p.push('\n');
                        push_chars(&mut p, line);
                        pending = Some(p);
                    }
                },
                None => {
                    pending = Some(copy_range(line, 0, line.len()));
                    assert(line@.subrange(0, line@.len() as int) =~= line@);
                },
            }
        } else {
            let ghost mut units = st.units;
            match pending {
                Some(p) => {
                    emit_unit(&mut out, has_units, &p, true, Ghost(units));
                    proof {
                        units = units.push(fix_line(p@));
                    }
                    has_units = true;
                },
                None => {},
            }
            pending = None;
            emit_unit(&mut out, has_units, line, text, Ghost(units));
            has_units = true;
        }
        fence = next_fence;
        k = k + 1;
    }
    match pending {
        Some(p) => {
            emit_unit(&mut out, has_units, &p, true, Ghost(pass_after(ls, k as int).units));
        },
        None => {},
    }
    chars_to_string(&out)
}

/// `s` with every zero-width space removed.
pub open spec fn without_zwsp(s: Seq<char>) -> Seq<char>
    decreases s.len(),
{
    if s.len() == 0 {
        Seq::<char>::empty()
    } else if s.last() == ZWSP {
        without_zwsp(s.drop_last())
    } else {
        without_zwsp(s.drop_last()).push(s.last())
    }
}

/// `out` is `inp` with zero-width spaces inserted (possibly none): `inp` is
/// `out` with some of its zero-width spaces deleted.
pub open spec fn zwsp_inserted(out: Seq<char>, inp: Seq<char>) -> bool
    decreases out.len(),
{
    if out.len() == 0 {
        inp.len() == 0
    } else if inp.len() > 0 && out.last() == inp.last() && zwsp_inserted(
        out.drop_last(),
        inp.drop_last(),
    ) {
        true
    } else {
        out.last() == ZWSP && zwsp_inserted(out.drop_last(), inp)
    }
}

/// Number of occurrences of `c` in `s`.
pub open spec fn count_char(s: Seq<char>, c: char) -> nat
    decreases s.len(),
{
    if s.len() == 0 {
        0
    } else {
        count_char(s.drop_last(), c) + if s.last() == c {
            1nat
        } else {
            0nat
        }
    }
}

proof fn lemma_inserted_refl(s: Seq<char>)
    ensures
        zwsp_inserted(s, s),
    decreases s.len(),
{
    if s.len() > 0 {
        lemma_inserted_refl(s.drop_last());
    }
}

proof fn lemma_inserted_zwsp()
    ensures
        zwsp_inserted(seq![ZWSP], Seq::<char>::empty()),
{
    let one: Seq<char> = seq![ZWSP];
    assert(one.len() == 1);
    assert(one.last() == ZWSP);
    assert(one.drop_last() =~= Seq::<char>::empty());
    assert(zwsp_inserted(Seq::<char>::empty(), Seq::<char>::empty()));
}

proof fn lemma_inserted_concat(a1: Seq<char>, b1: Seq<char>, a2: Seq<char>, b2: Seq<char>)
    requires
        zwsp_inserted(a1, b1),
        zwsp_inserted(a2, b2),
    ensures
        zwsp_inserted(a1 + a2, b1 + b2),
    decreases a2.len(),
{
    if a2.len() == 0 {
        assert(a1 + a2 =~= a1);
        assert(b1 + b2 =~= b1);
    } else {
        assert((a1 + a2).drop_last() =~= a1 + a2.drop_last());
        assert((a1 + a2).last() == a2.last());
        if b2.len() > 0 && a2.last() == b2.last() && zwsp_inserted(a2.drop_last(), b2.drop_last()) {
            lemma_inserted_concat(a1, b1, a2.drop_last(), b2.drop_last());
            assert((b1 + b2).drop_last() =~= b1 + b2.drop_last());
            assert((b1 + b2).last() == b2.last());
        } else {
            lemma_inserted_concat(a1, b1, a2.drop_last(), b2);
        }
    }
}

proof fn lemma_inserted_strip(out: Seq<char>, inp: Seq<char>)
    requires
        zwsp_inserted(out, inp),
    ensures
        without_zwsp(out) == without_zwsp(inp),
        count_char(out, '\n') == count_char(inp, '\n'),
    decreases out.len(),
{
    if out.len() > 0 {
        if inp.len() > 0 && out.last() == inp.last() && zwsp_inserted(out.drop_last(), inp.drop_last()) {
            lemma_inserted_strip(out.drop_last(), inp.drop_last());
        } else {
            lemma_inserted_strip(out.drop_last(), inp);
        }
    }
}

proof fn lemma_split_count(s: Seq<char>, c: char)
    ensures
        split_char(s, c).len() == count_char(s, c) + 1,
    decreases s.len(),
{
    if s.len() > 0 {
        lemma_split_count(s.drop_last(), c);
        lemma_split_char_nonempty(s.drop_last(), c);
    }
}

proof fn lemma_emphasis_fix_inserted(seg: Seq<char>, i: int)
    requires
        0 <= i <= seg.len(),
    ensures
        zwsp_inserted(emphasis_fix_from(seg, i), seg.subrange(i, seg.len() as int)),
    decreases seg.len() - i,
{
    if i == seg.len() {
        assert(seg.subrange(i, seg.len() as int) =~= Seq::<char>::empty());
    } else if is_delim(seg[i]) {
        let j = i + run_len(seg, i, seg[i]);
        lemma_run_len_positive(seg, i, seg[i]);
        lemma_run_len_bound(seg, i, seg[i]);
        lemma_emphasis_fix_inserted(seg, j);
        let run = seg.subrange(i, j);
        let piece = delimiter_piece(seg, i, j);
        lemma_inserted_refl(run);
        lemma_inserted_zwsp();
        lemma_inserted_concat(seq![ZWSP], Seq::<char>::empty(), run, run);
        lemma_inserted_concat(run, run, seq![ZWSP], Seq::<char>::empty());
        assert(Seq::<char>::empty() + run =~= run);
        assert(run + Seq::<char>::empty() =~= run);
        assert(zwsp_inserted(piece, run));
        lemma_inserted_concat(piece, run, emphasis_fix_from(seg, j), seg.subrange(j, seg.len() as int));
        assert(seg.subrange(i, seg.len() as int) =~= run + seg.subrange(j, seg.len() as int));
    } else {
        lemma_emphasis_fix_inserted(seg, i + 1);
        lemma_inserted_refl(seq![seg[i]]);
        lemma_inserted_concat(seq![seg[i]], seq![seg[i]], emphasis_fix_from(seg, i + 1), seg.subrange(i + 1, seg.len() as int));
        assert(seg.subrange(i, seg.len() as int) =~= seq![seg[i]] + seg.subrange(
            i + 1,
            seg.len() as int,
        ));
    }
}

proof fn lemma_fix_line_inserted(s: Seq<char>, ts: int, i: int)
    requires
        0 <= ts <= i <= s.len(),
    ensures
        zwsp_inserted(fix_line_from(s, ts, i), s.subrange(ts, s.len() as int)),
    decreases s.len() - i,
{
    if i >= s.len() {
        lemma_emphasis_fix_inserted(s.subrange(ts, s.len() as int), 0);
        assert(s.subrange(ts, s.len() as int).subrange(0, s.len() - ts) =~= s.subrange(
            ts,
            s.len() as int,
        ));
    } else if s[i] == '`' {
        let j = i + run_len(s, i, '`');
        lemma_run_len_positive(s, i, '`');
        lemma_run_len_bound(s, i, '`');
        match closing_run(s, j, (j - i) as nat) {
            Some(end) => {
                lemma_closing_run_bound(s, j, (j - i) as nat);
                let head = s.subrange(ts, i);
                lemma_emphasis_fix_inserted(head, 0);
                assert(head.subrange(0, head.len() as int) =~= head);
                lemma_fix_line_inserted(s, end, end);
                let b = s.subrange(i, end);
                lemma_inserted_refl(b);
                lemma_inserted_concat(emphasis_fix(head), head, b, b);
                lemma_inserted_concat(emphasis_fix(head) + b, head + b, fix_line_from(s, end, end), s.subrange(end, s.len() as int));
                assert(s.subrange(ts, s.len() as int) =~= head + b + s.subrange(
                    end,
                    s.len() as int,
                ));
            },
            None => {
                lemma_fix_line_inserted(s, ts, j);
            },
        }
    } else {
        lemma_fix_line_inserted(s, ts, i + 1);
    }
}

proof fn lemma_fix_line_inserted_whole(p: Seq<char>)
    ensures
        zwsp_inserted(fix_line(p), p),
{
    lemma_fix_line_inserted(p, 0, 0);
    assert(p.subrange(0, p.len() as int) =~= p);
}

/// The pass with every transformation left out: the same units, untouched.
pub open spec fn raw_after(lines: Seq<Seq<char>>, k: int) -> CjkPass
    decreases k,
{
    if k <= 0 {
        CjkPass { units: Seq::<Seq<char>>::empty(), pending: None }
    } else {
        let st = raw_after(lines, k - 1);
        let line = lines[k - 1];
        let text = text_line(lines, k - 1);
        if text && !blank(line) && !single_line_block(line) {
            match st.pending {
                Some(p) => if opens_block(line) {
                    CjkPass { units: st.units.push(p), pending: Some(line) }
                } else {
                    CjkPass { units: st.units, pending: Some(p + seq!['\n'] + line) }
                },
                None => CjkPass { units: st.units, pending: Some(line) },
            }
        } else {
            match st.pending {
                Some(p) => CjkPass { units: st.units.push(p).push(line), pending: None },
                None => CjkPass { units: st.units.push(line), pending: None },
            }
        }
    }
}

pub open spec fn finish_raw(st: CjkPass) -> Seq<Seq<char>> {
    match st.pending {
        Some(p) => st.units.push(p),
        None => st.units,
    }
}

proof fn lemma_pass_matches_raw(lines: Seq<Seq<char>>, k: int)
    requires
        0 <= k <= lines.len(),
    ensures
        pass_after(lines, k).units.len() == raw_after(lines, k).units.len(),
        pass_after(lines, k).pending == raw_after(lines, k).pending,
        forall|i: int|
            0 <= i < pass_after(lines, k).units.len() ==> #[trigger] pass_after(lines, k).units[i]
                == raw_after(lines, k).units[i] || pass_after(lines, k).units[i] == fix_line(
                raw_after(lines, k).units[i],
            ),
    decreases k,
{
    if k > 0 {
        lemma_pass_matches_raw(lines, k - 1);
    }
}

proof fn lemma_raw_joins_lines(lines: Seq<Seq<char>>, k: int)
    requires
        0 <= k <= lines.len(),
    ensures
        join_with(finish_raw(raw_after(lines, k)), seq!['\n']) == join_with(lines.take(k), seq!['\n']),
        (k == 0) == (raw_after(lines, k).units.len() == 0 && raw_after(lines, k).pending is None),
    decreases k,
{
    if k > 0 {
        lemma_raw_joins_lines(lines, k - 1);
        let st = raw_after(lines, k - 1);
        let line = lines[k - 1];
        let nl = seq!['\n'];
        let prev = join_with(lines.take(k - 1), nl);
        assert(lines.take(k).drop_last() =~= lines.take(k - 1));
        assert(lines.take(k).last() == line);
        if k == 1 {
            assert(lines.take(1) =~= seq![line]);
        }
        let text = text_line(lines, k - 1);
        if text && !blank(line) && !single_line_block(line) {
            match st.pending {
                Some(p) => if opens_block(line) {
                    let a = st.units.push(p);
                    let b = a.push(line);
                    assert(b.drop_last() =~= a);
                } else {
                    let a = st.units.push(p);
                    let b = st.units.push(p + nl + line);
                    assert(a.drop_last() =~= st.units);
                    assert(b.drop_last() =~= st.units);
                    if st.units.len() == 0 {
                        assert(join_with(b, nl) == p + nl + line);
                    } else {
                        assert(join_with(b, nl) =~= join_with(a, nl) + nl + line);
                    }
                },
                None => {
                    let b = st.units.push(line);
                    assert(b.drop_last() =~= st.units);
                },
            }
        } else {
            match st.pending {
                Some(p) => {
                    let a = st.units.push(p);
                    let b = a.push(line);
                    assert(b.drop_last() =~= a);
                },
                None => {
                    let b = st.units.push(line);
                    assert(b.drop_last() =~= st.units);
                },
            }
        }
    }
}

proof fn lemma_join_inserted(a: Seq<Seq<char>>, b: Seq<Seq<char>>)
    requires
        a.len() == b.len(),
        forall|k: int| 0 <= k < a.len() ==> zwsp_inserted(#[trigger] a[k], b[k]),
    ensures
        zwsp_inserted(join_with(a, seq!['\n']), join_with(b, seq!['\n'])),
    decreases a.len(),
{
    if a.len() == 0 {
    } else if a.len() == 1 {
        assert(zwsp_inserted(a[0], b[0]));
    } else {
        lemma_join_inserted(a.drop_last(), b.drop_last());
        assert(zwsp_inserted(a[a.len() - 1], b[b.len() - 1]));
        let ja = join_with(a.drop_last(), seq!['\n']);
        let jb = join_with(b.drop_last(), seq!['\n']);
        lemma_inserted_refl(seq!['\n']);
        lemma_inserted_concat(ja, jb, seq!['\n'], seq!['\n']);
        lemma_inserted_concat(ja + seq!['\n'], jb + seq!['\n'], a.last(), b.last());
    }
}

/// The units of the pass and those of `raw_after` correspond one to one,
/// each unit either equal to its raw unit or `fix_line` of it.
proof fn lemma_finished_units(lines: Seq<Seq<char>>)
    ensures
        finished_units(lines).len() == finish_raw(raw_after(lines, lines.len() as int)).len(),
        forall|i: int|
            0 <= i < finished_units(lines).len() ==> #[trigger] finished_units(lines)[i]
                == finish_raw(raw_after(lines, lines.len() as int))[i] || finished_units(lines)[i]
                == fix_line(finish_raw(raw_after(lines, lines.len() as int))[i]),
{
    lemma_pass_matches_raw(lines, lines.len() as int);
}

/// The CJK pass only inserts zero-width spaces: the input is the output with
/// some zero-width spaces deleted. So it keeps the number of lines, and the
/// two agree once all zero-width spaces are removed.
pub proof fn cjk_pass_only_inserts_zero_width_spaces(md: Seq<char>)
    ensures
        zwsp_inserted(cjk_friendly(md), md),
        split_char(cjk_friendly(md), '\n').len() == split_char(md, '\n').len(),
        without_zwsp(cjk_friendly(md)) == without_zwsp(md),
{
    let ls = split_char(md, '\n');
    let f = finished_units(ls);
    let r = finish_raw(raw_after(ls, ls.len() as int));
    lemma_finished_units(ls);
    assert forall|k: int| 0 <= k < f.len() implies zwsp_inserted(#[trigger] f[k], r[k]) by {
        lemma_inserted_refl(r[k]);
        lemma_fix_line_inserted_whole(r[k]);
    }
    lemma_join_inserted(f, r);
    lemma_raw_joins_lines(ls, ls.len() as int);
    assert(ls.take(ls.len() as int) =~= ls);
    lemma_join_split(md, '\n');
    lemma_inserted_strip(cjk_friendly(md), md);
    lemma_split_count(cjk_friendly(md), '\n');
    lemma_split_count(md, '\n');
}

pub open spec fn no_delimiters(s: Seq<char>) -> bool {
    forall|k: int| 0 <= k < s.len() ==> !is_delim(#[trigger] s[k])
}

proof fn lemma_emphasis_fix_plain(seg: Seq<char>, i: int)
    requires
        0 <= i <= seg.len(),
        no_delimiters(seg),
    ensures
        emphasis_fix_from(seg, i) == seg.subrange(i, seg.len() as int),
    decreases seg.len() - i,
{
    if i < seg.len() {
        assert(!is_delim(seg[i]));
        lemma_emphasis_fix_plain(seg, i + 1);
        assert(seg.subrange(i, seg.len() as int) =~= seq![seg[i]] + seg.subrange(i + 1, seg.len() as int));
    } else {
        assert(seg.subrange(i, seg.len() as int) =~= Seq::<char>::empty());
    }
}

proof fn lemma_fix_line_plain(s: Seq<char>, ts: int, i: int)
    requires
        0 <= ts <= i <= s.len(),
        no_delimiters(s),
    ensures
        fix_line_from(s, ts, i) == s.subrange(ts, s.len() as int),
    decreases s.len() - i,
{
    if i >= s.len() {
        let seg = s.subrange(ts, s.len() as int);
        assert forall|k: int| 0 <= k < seg.len() implies !is_delim(#[trigger] seg[k]) by {
            assert(seg[k] == s[ts + k]);
        }
        lemma_emphasis_fix_plain(seg, 0);
        assert(seg.subrange(0, seg.len() as int) =~= seg);
    } else if s[i] == '`' {
        let j = i + run_len(s, i, '`');
        lemma_run_len_positive(s, i, '`');
        lemma_run_len_bound(s, i, '`');
        match closing_run(s, j, (j - i) as nat) {
            Some(end) => {
                lemma_closing_run_bound(s, j, (j - i) as nat);
                let head = s.subrange(ts, i);
                assert forall|k: int| 0 <= k < head.len() implies !is_delim(#[trigger] head[k]) by {
                    assert(head[k] == s[ts + k]);
                }
                lemma_emphasis_fix_plain(head, 0);
                assert(head.subrange(0, head.len() as int) =~= head);
                lemma_fix_line_plain(s, end, end);
                assert(s.subrange(ts, s.len() as int) =~= head + s.subrange(i, end) + s.subrange(
                    end,
                    s.len() as int,
                ));
            },
            None => {
                lemma_fix_line_plain(s, ts, j);
            },
        }
    } else {
        lemma_fix_line_plain(s, ts, i + 1);
    }
}

proof fn lemma_join_parts_plain(parts: Seq<Seq<char>>)
    requires
        no_delimiters(join_with(parts, seq!['\n'])),
    ensures
        forall|k: int| 0 <= k < parts.len() ==> no_delimiters(#[trigger] parts[k]),
    decreases parts.len(),
{
    if parts.len() > 1 {
        let a = join_with(parts.drop_last(), seq!['\n']);
        let j = a + seq!['\n'] + parts.last();
        assert forall|q: int| 0 <= q < a.len() implies !is_delim(#[trigger] a[q]) by {
            assert(j[q] == a[q]);
        }
        lemma_join_parts_plain(parts.drop_last());
        assert forall|k: int| 0 <= k < parts.len() implies no_delimiters(#[trigger] parts[k]) by {
            if k < parts.len() - 1 {
                assert(parts[k] == parts.drop_last()[k]);
            } else {
                assert forall|q: int| 0 <= q < parts[k].len() implies !is_delim(#[trigger] parts[k][q]) by {
                    assert(j[a.len() + 1 + q] == parts[k][q]);
                }
            }
        }
    }
}

/// Text without any `*` or `_` comes out of the CJK pass unchanged.
pub proof fn cjk_pass_leaves_text_without_delimiters_unchanged(md: Seq<char>)
    requires
        no_delimiters(md),
    ensures
        cjk_friendly(md) == md,
{
    let ls = split_char(md, '\n');
    let f = finished_units(ls);
    let r = finish_raw(raw_after(ls, ls.len() as int));
    lemma_finished_units(ls);
    lemma_raw_joins_lines(ls, ls.len() as int);
    assert(ls.take(ls.len() as int) =~= ls);
    lemma_join_split(md, '\n');
    lemma_join_parts_plain(r);
    assert forall|k: int| 0 <= k < f.len() implies #[trigger] f[k] == r[k] by {
        assert(no_delimiters(r[k]));
        lemma_fix_line_plain(r[k], 0, 0);
        assert(r[k].subrange(0, r[k].len() as int) =~= r[k]);
    }
    assert(f =~= r);
}

/// Code lines are copied: a line inside a fenced code block, a fence line,
/// and a line indented by four spaces or a tab is a unit of its own, the
/// line unchanged.
pub proof fn cjk_pass_copies_code_lines(lines: Seq<Seq<char>>, k: int)
    requires
        0 <= k < lines.len(),
        !text_line(lines, k),
    ensures
        pass_after(lines, k + 1).units.last() == lines[k],
{
}

/// A line inside a fenced block, or indented by four spaces or a tab, is
/// no text line.
pub proof fn code_lines_are_not_text(lines: Seq<Seq<char>>, k: int)
    requires
        0 <= k < lines.len(),
        fence_before(lines, k) is Some || starts_with(lines[k], seq![' ', ' ', ' ', ' '])
            || starts_with(lines[k], seq!['\t']),
    ensures
        !text_line(lines, k),
{
}

proof fn lemma_run_len_exact(s: Seq<char>, k: int, c: char, m: nat)
    requires
        0 <= k,
        k + m <= s.len(),
        forall|q: int| k <= q < k + m ==> s[q] == c,
        k + m == s.len() || s[k + m] != c,
    ensures
        run_len(s, k, c) == m,
    decreases m,
{
    if m > 0 {
        lemma_run_len_exact(s, k + 1, c, (m - 1) as nat);
    }
}

proof fn lemma_cjk_not_punct(c: char)
    ensures
        !(cjk_letter(c) && md_punct(c)),
        !cjk_letter(ZWSP),
        !md_punct(ZWSP),
        !is_delim(ZWSP),
        ZWSP != '\\',
{
}

/// Where the emphasis fix resumes: the start, the end, or a position that
/// does not split a delimiter run.
pub open spec fn fix_boundary(seg: Seq<char>, i: int) -> bool {
    &&& 0 <= i <= seg.len()
    &&& (0 < i < seg.len() ==> !(is_delim(seg[i]) && seg[i - 1] == seg[i]))
}

proof fn lemma_fix_from_first(seg: Seq<char>, j: int)
    requires
        fix_boundary(seg, j),
        j < seg.len(),
    ensures
        emphasis_fix_from(seg, j).len() > 0,
        !is_delim(seg[j]) ==> emphasis_fix_from(seg, j)[0] == seg[j],
        is_delim(seg[j]) ==> emphasis_fix_from(seg, j)[0] == seg[j] || emphasis_fix_from(seg, j)[0] == ZWSP,
{
    if is_delim(seg[j]) {
        lemma_run_len_positive(seg, j, seg[j]);
        lemma_run_len_bound(seg, j, seg[j]);
    }
}

proof fn lemma_fix_again(seg: Seq<char>, i: int, o: Seq<char>, p: int)
    requires
        fix_boundary(seg, i),
        0 <= p <= o.len(),
        o.skip(p) == emphasis_fix_from(seg, i),
        (i == 0) == (p == 0),
        i > 0 && !is_delim(seg[i - 1]) ==> o[p - 1] == seg[i - 1],
        i > 0 && is_delim(seg[i - 1]) ==> o[p - 1] == seg[i - 1] || o[p - 1] == ZWSP,
    ensures
        emphasis_fix_from(o, p) == emphasis_fix_from(seg, i),
    decreases seg.len() - i,
{
    lemma_cjk_not_punct(seg[i - 1]);
    if i == seg.len() {
        assert(o.skip(p).len() == 0);
    } else if !is_delim(seg[i]) {
        assert(o.skip(p)[0] == seg[i]);
        assert(o.skip(p).len() == o.len() - p);
        assert(o.skip(p)[0] == o[p]);
        assert(o[p] == seg[i]);
        assert(o.skip(p + 1) =~= o.skip(p).drop_first());
        assert(emphasis_fix_from(seg, i + 1) =~= emphasis_fix_from(seg, i).drop_first());
        lemma_fix_again(seg, i + 1, o, p + 1);
    } else {
        let c = seg[i];
        lemma_run_len_positive(seg, i, c);
        lemma_run_len_bound(seg, i, c);
        let m = run_len(seg, i, c);
        let j = i + m;
        let run = seg.subrange(i, j);
        let piece = delimiter_piece(seg, i, j);
        let rest = emphasis_fix_from(seg, j);
        assert(o.skip(p) == piece + rest);
        if j < seg.len() {
            lemma_fix_from_first(seg, j);
        }
        lemma_cjk_not_punct(c);
        if j < seg.len() {
            lemma_cjk_not_punct(seg[j]);
        }
        if i > 0 {
            lemma_cjk_not_punct(o[p - 1]);
        }
        if piece == run {
            // The run stands in `o` at `p`, with the same or neutral neighbours.
            assert forall|q: int| p <= q < p + m implies o[q] == c by {
                assert(o[q] == o.skip(p)[q - p]);
                assert(o.skip(p)[q - p] == run[q - p]);
            }
            if j < seg.len() {
                assert(o[p + m] == o.skip(p)[m as int]);
                assert(o.skip(p)[m as int] == rest[0]);
            }
            lemma_run_len_exact(o, p, c, m);
            assert(o.subrange(p, p + m) =~= run);
            if j < seg.len() {
                lemma_cjk_not_punct(o[p + m]);
            }
            assert(delimiter_piece(o, p, p + m) == run);
            assert(o.skip(p + m) =~= o.skip(p).skip(m as int));
            assert(o.skip(p).skip(m as int) =~= rest);
            lemma_fix_again(seg, j, o, p + m);
        } else if piece == seq![ZWSP] + run {
            assert(o.skip(p).len() == o.len() - p);
            assert(o.skip(p)[0] == ZWSP);
            assert(o.skip(p)[0] == o[p]);
            assert(o.skip(p + 1) =~= o.skip(p).drop_first());
            assert forall|q: int| p + 1 <= q < p + 1 + m implies o[q] == c by {
                assert(o[q] == o.skip(p)[q - p]);
            }
            assert(o[p + 1 + m] == o.skip(p)[(m + 1) as int]);
            assert(o.skip(p)[(m + 1) as int] == rest[0]);
            lemma_run_len_exact(o, p + 1, c, m);
            assert(o.subrange(p + 1, p + 1 + m) =~= run);
            assert(delimiter_piece(o, p + 1, p + 1 + m) == run);
            assert(o.skip(p + 1 + m) =~= o.skip(p).skip((m + 1) as int));
            assert(o.skip(p).skip((m + 1) as int) =~= rest);
            lemma_fix_again(seg, j, o, p + 1 + m);
            assert(emphasis_fix_from(o, p + 1) == run + rest);
            assert(emphasis_fix_from(o, p) =~= seq![ZWSP] + (run + rest));
        } else {
            assert(piece == run + seq![ZWSP]);
            assert forall|q: int| p <= q < p + m implies o[q] == c by {
                assert(o[q] == o.skip(p)[q - p]);
            }
            assert(o[p + m] == o.skip(p)[m as int]);
            assert(o[p + m] == ZWSP);
            lemma_run_len_exact(o, p, c, m);
            assert(o.subrange(p, p + m) =~= run);
            assert(delimiter_piece(o, p, p + m) == run);
            assert(o.skip(p + m + 1) =~= o.skip(p).skip((m + 1) as int));
            assert(o.skip(p).skip((m + 1) as int) =~= rest);
            lemma_fix_again(seg, j, o, p + m + 1);
            assert(o.skip(p + m) =~= o.skip(p).skip(m as int));
            assert(emphasis_fix_from(o, p + m) =~= seq![ZWSP] + rest);
        }
    }
}

/// The emphasis fix of a plain-text segment is idempotent: applied to its
/// own output it changes nothing, since every zero-width space it inserts
/// stands between a delimiter run and the character that called for it.
pub proof fn emphasis_fix_is_idempotent(seg: Seq<char>)
    ensures
        emphasis_fix(emphasis_fix(seg)) == emphasis_fix(seg),
{
    let o = emphasis_fix(seg);
    assert(o.skip(0) =~= o);
    lemma_fix_again(seg, 0, o, 0);
}

/// The pulldown-cmark extensions a parse enables.
#[derive(Clone, Copy)]
pub struct ParseOptions {
    pub footnotes: bool,
    pub tables: bool,
    pub strikethrough: bool,
    pub tasklists: bool,
}

/// The extensions the blog renders with: footnotes, tables, strikethrough and
/// task lists.
pub open spec fn blog_options() -> ParseOptions {
    ParseOptions { footnotes: true, tables: true, strikethrough: true, tasklists: true }
}

pub fn make_blog_options() -> (o: ParseOptions)
    ensures
        o == blog_options(),
{
    ParseOptions { footnotes: true, tables: true, strikethrough: true, tasklists: true }
}

/// A parser event as far as this library reads it: the start of a fenced
/// code block (with its info string), the end of any code block, text, inline
/// code, or anything else.
pub enum MdEvent {
    FencedCodeStart(String),
    CodeBlockEnd,
    Text(String),
    Code(String),
    Other,
}

pub enum MdEventModel {
    FencedCodeStart(Seq<char>),
    CodeBlockEnd,
    Text(Seq<char>),
    Code(Seq<char>),
    Other,
}

impl View for MdEvent {
    type V = MdEventModel;

    open spec fn view(&self) -> MdEventModel {
        match self {
            MdEvent::FencedCodeStart(s) => MdEventModel::FencedCodeStart(s@),
            MdEvent::CodeBlockEnd => MdEventModel::CodeBlockEnd,
            MdEvent::Text(s) => MdEventModel::Text(s@),
            MdEvent::Code(s) => MdEventModel::Code(s@),
            MdEvent::Other => MdEventModel::Other,
        }
    }
}

pub open spec fn events_view(evs: Seq<MdEvent>) -> Seq<MdEventModel> {
    evs.map_values(|e: MdEvent| e@)
}

/// One event of the HTML stream to render: the parser's event at an index,
/// or a block of raw HTML.
pub enum HtmlPiece {
    Keep(usize),
    Html(String),
}

pub enum HtmlPieceModel {
    Keep(nat),
    Html(Seq<char>),
}

impl View for HtmlPiece {
    type V = HtmlPieceModel;

    open spec fn view(&self) -> HtmlPieceModel {
        match self {
            HtmlPiece::Keep(i) => HtmlPieceModel::Keep(*i as nat),
            HtmlPiece::Html(s) => HtmlPieceModel::Html(s@),
        }
    }
}

pub open spec fn pieces_view(ps: Seq<HtmlPiece>) -> Seq<HtmlPieceModel> {
    ps.map_values(|p: HtmlPiece| p@)
}

/// The events pulldown-cmark's `Parser::new_ext` produces for `md` with the
/// extensions in `opts`, as this library reads them.
pub uninterp spec fn markdown_events(opts: ParseOptions, md: Seq<char>) -> Seq<MdEventModel>;

/// What pulldown-cmark's `html::push_html` writes for the event stream made
/// of `pieces`: the parser's events for `md` (with `opts`) at the kept
/// indices and raw HTML events for the HTML pieces, in order.
pub uninterp spec fn html_of_pieces(
    opts: ParseOptions,
    md: Seq<char>,
    pieces: Seq<HtmlPieceModel>,
) -> Seq<char>;

#[verifier::external_type_specification]
#[verifier::external_body]
pub struct ExParserOptions(pulldown_cmark::Options);

/// Builds pulldown-cmark's `Options` with the extensions in `opts`.
#[verifier::external_body]
fn pulldown_options(opts: &ParseOptions) -> pulldown_cmark::Options {
    let mut o = pulldown_cmark::Options::empty();
    o.set(pulldown_cmark::Options::ENABLE_FOOTNOTES, opts.footnotes);
    o.set(pulldown_cmark::Options::ENABLE_TABLES, opts.tables);
    o.set(pulldown_cmark::Options::ENABLE_STRIKETHROUGH, opts.strikethrough);
    o.set(pulldown_cmark::Options::ENABLE_TASKLISTS, opts.tasklists);
    o
}

/// `pulldown_cmark::Parser::new_ext(md, opts)`, each event told apart into
/// an `MdEvent` (the fields moved). The result depends on `opts` and `md`
/// alone.
#[verifier::external_body]
pub(crate) fn parse_markdown(md: &str, opts: &ParseOptions) -> (evs: Vec<MdEvent>)
    ensures
        events_view(evs@) == markdown_events(*opts, md@),
{
    pulldown_cmark::Parser::new_ext(md, pulldown_options(opts)).map(|ev| match ev {
        Event::Start(Tag::CodeBlock(CodeBlockKind::Fenced(l))) => MdEvent::FencedCodeStart(l.into_string()),
        Event::End(TagEnd::CodeBlock) => MdEvent::CodeBlockEnd,
        Event::Text(t) => MdEvent::Text(t.into_string()),
        Event::Code(t) => MdEvent::Code(t.into_string()),
        _ => MdEvent::Other,
    }).collect()
}

/// `pulldown_cmark::html::push_html` into an empty `String`, over the events
/// of `Parser::new_ext(md, opts)` picked by `pieces` (cloned) and `Event::Html`
/// for the HTML pieces. The result depends on `md`, `opts` and `pieces` alone.
#[verifier::external_body]
fn render_pieces(md: &str, opts: &ParseOptions, pieces: &Vec<HtmlPiece>) -> (html: String)
    requires
        forall|k: int|
            0 <= k < pieces.len() ==> (#[trigger] pieces@[k]@ matches HtmlPieceModel::Keep(i)
                ==> i < markdown_events(*opts, md@).len()),
    ensures
        html@ == html_of_pieces(*opts, md@, pieces_view(pieces@)),
{
    let events: Vec<Event> = pulldown_cmark::Parser::new_ext(md, pulldown_options(opts)).collect();
    let stream = pieces.iter().map(|p| match p {
        HtmlPiece::Keep(i) => events[*i].clone(),
        HtmlPiece::Html(h) => Event::Html(CowStr::Boxed(h.clone().into_boxed_str())),
    });
    let mut html = String::new();
    pulldown_cmark::html::push_html(&mut html, stream);
    html
}

/// The state of the code-block pass: the info string of the open fenced code
/// block (if any), its text so far, and the pieces so far.
pub struct PlanState {
    pub lang: Option<Seq<char>>,
    pub code: Seq<char>,
    pub pieces: Seq<HtmlPieceModel>,
}

/// One event of the code-block pass (event `i`): a fenced code block's text
/// is collected instead of passed on, and the end of a code block becomes
/// its highlighted HTML; every other event is kept.
pub open spec fn plan_step(st: PlanState, ev: MdEventModel, i: nat) -> PlanState {
    match ev {
        MdEventModel::FencedCodeStart(lang) => PlanState {
            lang: Some(lang),
            code: Seq::<char>::empty(),
            pieces: st.pieces,
        },
        MdEventModel::CodeBlockEnd => {
            let lang = match st.lang {
                Some(l) => l,
                None => Seq::<char>::empty(),
            };
            PlanState {
                lang: None,
                code: Seq::<char>::empty(),
                pieces: st.pieces.push(HtmlPieceModel::Html(highlighted_block(st.code, lang))),
            }
        },
        MdEventModel::Text(t) => if st.lang is Some {
            PlanState { lang: st.lang, code: st.code + t, pieces: st.pieces }
        } else {
            PlanState { lang: st.lang, code: st.code, pieces: st.pieces.push(HtmlPieceModel::Keep(i)) }
        },
        _ => PlanState { lang: st.lang, code: st.code, pieces: st.pieces.push(HtmlPieceModel::Keep(i)) },
    }
}

pub open spec fn plan_after(evs: Seq<MdEventModel>, k: int) -> PlanState
    decreases k,
{
    if k <= 0 {
        PlanState { lang: None, code: Seq::<char>::empty(), pieces: Seq::<HtmlPieceModel>::empty() }
    } else {
        plan_step(plan_after(evs, k - 1), evs[k - 1], (k - 1) as nat)
    }
}

/// The HTML stream for the events `evs`: code blocks replaced by their
/// highlighted HTML.
pub open spec fn code_block_plan(evs: Seq<MdEventModel>) -> Seq<HtmlPieceModel> {
    plan_after(evs, evs.len() as int).pieces
}

fn plan_code_blocks(evs: &Vec<MdEvent>) -> (pieces: Vec<HtmlPiece>)
    ensures
        pieces_view(pieces@) == code_block_plan(events_view(evs@)),
        forall|k: int|
            0 <= k < pieces.len() ==> (#[trigger] pieces@[k]@ matches HtmlPieceModel::Keep(i)
                ==> i < evs.len()),
{
    let ghost ev = events_view(evs@);
    let mut pieces: Vec<HtmlPiece> = Vec::new();
    let mut lang: Option<String> = None;
    let mut code: Vec<char> = Vec::new();
    let mut k: usize = 0;
    while k < evs.len()
        invariant
            ev == events_view(evs@),
            k <= evs.len(),
            ({
                let st = plan_after(ev, k as int);
                &&& pieces_view(pieces@) == st.pieces
                &&& code@ == st.code
                &&& match lang {
                    Some(l) => st.lang == Some(l@),
                    None => st.lang is None,
                }
            }),
            forall|q: int|
                0 <= q < pieces.len() ==> (#[trigger] pieces@[q]@ matches HtmlPieceModel::Keep(i)
                    ==> i < k),
        decreases evs.len() - k,
    {
        let ghost prev = pieces@;
        match &evs[k] {
            MdEvent::FencedCodeStart(l) => {
                lang = Some(l.clone());
                code = Vec::new();
            },
            MdEvent::CodeBlockEnd => {
                let l = match &lang {
                    Some(l) => l.clone(),
                    None => String::new(),
                };
                let text = chars_to_string(&code);
                let html = highlight_code(text.as_str(), l.as_str());
                pieces.push(HtmlPiece::Html(html));
                lang = None;
                code = Vec::new();
            },
            MdEvent::Text(t) => {
                if lang.is_some() {
                    push_str(&mut code, t.as_str());
                } else {
                    pieces.push(HtmlPiece::Keep(k));
                }
            },
            _ => {
                pieces.push(HtmlPiece::Keep(k));
            },
        }
        assert(pieces_view(pieces@) =~= plan_after(ev, k + 1).pieces);
        k = k + 1;
    }
    pieces
}

/// What `render` produces for `md`: the CJK pass, then the parser's events
/// with code blocks highlighted, rendered to HTML, then the footnote pass.
pub open spec fn rendered(md: Seq<char>) -> Seq<char> {
    let pre = cjk_friendly(md);
    footnotes_linked(
        html_of_pieces(blog_options(), pre, code_block_plan(markdown_events(blog_options(), pre))),
    )
}

/// Renders Markdown to HTML.
pub fn render(md: &str) -> (html: String)
    ensures
        html@ == rendered(md@),
{
    let pre = cjk_friendly_emphasis(md);
    let opts = make_blog_options();
    let events = parse_markdown(pre.as_str(), &opts);
    let pieces = plan_code_blocks(&events);
    let out = render_pieces(pre.as_str(), &opts, &pieces);
    enhance_footnotes(out.as_str())
}

/// The events of one fenced code block: its start with the info string
/// `lang`, its text events, its end.
pub open spec fn fenced_block(lang: Seq<char>, texts: Seq<Seq<char>>) -> Seq<MdEventModel> {
    seq![MdEventModel::FencedCodeStart(lang)] + texts.map_values(|t: Seq<char>| MdEventModel::Text(t))
        + seq![MdEventModel::CodeBlockEnd]
}

proof fn lemma_plan_prefix(a: Seq<MdEventModel>, b: Seq<MdEventModel>, k: int)
    requires
        0 <= k <= a.len(),
    ensures
        plan_after(a + b, k) == plan_after(a, k),
    decreases k,
{
    if k > 0 {
        lemma_plan_prefix(a, b, k - 1);
        assert((a + b)[k - 1] == a[k - 1]);
    }
}

proof fn lemma_plan_in_block(before: Seq<MdEventModel>, lang: Seq<char>, texts: Seq<Seq<char>>, j: int)
    requires
        0 <= j <= texts.len(),
    ensures
        plan_after(before + fenced_block(lang, texts), before.len() + 1 + j) == (PlanState {
            lang: Some(lang),
            code: texts.take(j).flatten(),
            pieces: code_block_plan(before),
        }),
    decreases j,
{
    let blk = fenced_block(lang, texts);
    let e = before + blk;
    let n = before.len() as int;
    if j == 0 {
        lemma_plan_prefix(before, blk, n);
        assert(e[n] == blk[0]);
        assert(texts.take(0) =~= Seq::<Seq<char>>::empty());
        assert(texts.take(0).flatten() =~= Seq::<char>::empty());
    } else {
        lemma_plan_in_block(before, lang, texts, j - 1);
        assert(e[n + j] == blk[j]);
        assert(blk[j] == MdEventModel::Text(texts[j - 1]));
        assert(texts.take(j) =~= texts.take(j - 1).push(texts[j - 1]));
        texts.take(j - 1).lemma_flatten_push(texts[j - 1]);
    }
}

/// Each fenced code block is highlighted from its own text alone: whatever
/// events come before it (other code blocks, an unclosed one, anything),
/// appending a fenced block with info string `lang` and text events `texts`
/// appends exactly one piece, the highlighting of those texts joined, with
/// `lang`.
pub proof fn fenced_block_is_highlighted_from_its_own_text(
    before: Seq<MdEventModel>,
    lang: Seq<char>,
    texts: Seq<Seq<char>>,
)
    ensures
        code_block_plan(before + fenced_block(lang, texts)) == code_block_plan(before).push(
            HtmlPieceModel::Html(highlighted_block(texts.flatten(), lang)),
        ),
{
    let blk = fenced_block(lang, texts);
    let e = before + blk;
    let n = before.len() as int;
    let m = texts.len() as int;
    lemma_plan_in_block(before, lang, texts, m);
    assert(texts.take(m) =~= texts);
    assert(e.len() == n + m + 2);
    assert(e[n + m + 1] == blk[m + 1]);
    assert(blk[m + 1] == MdEventModel::CodeBlockEnd);
}

/// A `*` or `_` run between a punctuation character `p` (any ASCII
/// punctuation other than a backslash, which escapes the run, and other than
/// the run's own character, or one of the CJK punctuation marks listed) and
/// a CJK letter `c` (Hangul, Kana, Han) gets a zero-width space before it;
/// between a CJK letter and such a character it gets one after it.
pub proof fn ascii_punctuation_next_to_a_run_gets_a_zero_width_space(p: char, d: char, n: nat, c: char)
    requires
        ('!' <= p && p <= '/') || (':' <= p && p <= '@') || ('[' <= p && p <= '`') || ('{' <= p && p
            <= '~') || p == '\u{3001}' || p == '\u{3002}' || ('\u{3008}' <= p && p <= '\u{3011}') || (
        '\u{3014}' <= p && p <= '\u{301B}') || p == '\u{FF01}' || p == '\u{FF08}' || p == '\u{FF09}' || p
            == '\u{FF0C}' || p == '\u{FF1A}' || p == '\u{FF1B}' || p == '\u{FF1F}',
        p != '\\',
        d == '*' || d == '_',
        p != d,
        n >= 1,
        ('\u{1100}' <= c && c <= '\u{11FF}') || ('\u{3040}' <= c && c <= '\u{30FF}') || ('\u{3130}' <= c
            && c <= '\u{318F}') || ('\u{3400}' <= c && c <= '\u{4DBF}') || ('\u{4E00}' <= c && c
            <= '\u{9FFF}') || ('\u{A960}' <= c && c <= '\u{A97F}') || ('\u{AC00}' <= c && c <= '\u{D7A3}')
            || ('\u{D7B0}' <= c && c <= '\u{D7FF}') || ('\u{F900}' <= c && c <= '\u{FAFF}') || ('\u{20000}'
            <= c && c <= '\u{2FA1F}'),
    ensures
        emphasis_fix(seq![p] + Seq::new(n, |i: int| d) + seq![c]) == seq![p, ZWSP] + Seq::new(n, |i: int| d)
            + seq![c],
        emphasis_fix(seq![c] + Seq::new(n, |i: int| d) + seq![p]) == seq![c] + Seq::new(n, |i: int| d)
            + seq![ZWSP, p],
{
    let run = Seq::new(n, |i: int| d);
    let m = n as int;
    let s1 = seq![p] + run + seq![c];
    let s2 = seq![c] + run + seq![p];
    assert(md_punct(p));
    assert(cjk_letter(c));
    lemma_cjk_not_punct(c);
    lemma_cjk_not_punct(p);
    assert(!is_delim(c));
    assert(md_punct(d));
    // the first text: p, the run, c
    assert(s1[0] == p);
    lemma_run_len_exact(s1, 1, d, n);
    assert(s1.subrange(1, 1 + m) =~= run);
    assert(s1[1 + m] == c);
    if is_delim(p) {
        lemma_run_len_exact(s1, 0, p, 1);
        assert(s1.subrange(0, 1) =~= seq![p]);
    }
    assert(emphasis_fix_from(s1, 2 + m) =~= Seq::<char>::empty());
    assert(emphasis_fix_from(s1, 1 + m) =~= seq![c]);
    assert(emphasis_fix_from(s1, 1) =~= seq![ZWSP] + run + seq![c]);
    assert(emphasis_fix_from(s1, 0) =~= seq![p] + (seq![ZWSP] + run + seq![c]));
    assert(s1.len() == m + 2);
    // the second text: c, the run, p
    assert(s2[0] == c);
    lemma_run_len_exact(s2, 1, d, n);
    assert(s2.subrange(1, 1 + m) =~= run);
    assert(s2[1 + m] == p);
    if is_delim(p) {
        lemma_run_len_exact(s2, 1 + m, p, 1);
        assert(s2.subrange(1 + m, 2 + m) =~= seq![p]);
    }
    assert(emphasis_fix_from(s2, 2 + m) =~= Seq::<char>::empty());
    assert(emphasis_fix_from(s2, 1 + m) =~= seq![p]);
    assert(emphasis_fix_from(s2, 1) =~= run + seq![ZWSP] + seq![p]);
    assert(emphasis_fix_from(s2, 0) =~= seq![c] + (run + seq![ZWSP] + seq![p]));
    assert(s2.len() == m + 2);
}

/// Outside fenced code blocks every event other than a code block's start
/// or end is passed on unchanged, in order: after events that leave no
/// fenced block open, one more such event adds exactly one piece, the event
/// itself by its index.
pub proof fn events_outside_code_blocks_are_kept(before: Seq<MdEventModel>, ev: MdEventModel)
    requires
        plan_after(before, before.len() as int).lang is None,
        !(ev is FencedCodeStart),
        !(ev is CodeBlockEnd),
    ensures
        code_block_plan(before.push(ev)) == code_block_plan(before).push(
            HtmlPieceModel::Keep(before.len()),
        ),
        plan_after(before.push(ev), before.len() + 1int).lang is None,
{
    lemma_plan_prefix(before, seq![ev], before.len() as int);
    assert(before + seq![ev] =~= before.push(ev));
    assert(before.push(ev)[before.len() as int] == ev);
}

/// A fenced code block leaves no fenced block open behind it.
pub proof fn fenced_block_closes(before: Seq<MdEventModel>, lang: Seq<char>, texts: Seq<Seq<char>>)
    ensures
        plan_after(before + fenced_block(lang, texts), (before + fenced_block(lang, texts)).len() as int).lang
            is None,
{
    let blk = fenced_block(lang, texts);
    let m = texts.len() as int;
    let n = before.len() as int;
    lemma_plan_in_block(before, lang, texts, m);
    assert((before + blk)[n + m + 1] == blk[m + 1]);
}

/// A run right after a backslash is escaped and never gets a zero-width
/// space, whatever follows it.
pub proof fn escaped_run_is_left_alone(d: char, n: nat, c: char)
    requires
        d == '*' || d == '_',
        n >= 1,
        c != d,
        !is_delim(c),
    ensures
        emphasis_fix(seq!['\\'] + Seq::new(n, |i: int| d) + seq![c]) == seq!['\\'] + Seq::new(n, |i: int| d)
            + seq![c],
{
    let run = Seq::new(n, |i: int| d);
    let m = n as int;
    let s1 = seq!['\\'] + run + seq![c];
    assert(s1[0] == '\\');
    assert(!is_delim('\\'));
    lemma_run_len_exact(s1, 1, d, n);
    assert(s1.subrange(1, 1 + m) =~= run);
    assert(s1[1 + m] == c);
    assert(emphasis_fix_from(s1, 2 + m) =~= Seq::<char>::empty());
    assert(emphasis_fix_from(s1, 1 + m) =~= seq![c]);
    assert(emphasis_fix_from(s1, 1) =~= run + seq![c]);
    assert(emphasis_fix_from(s1, 0) =~= seq!['\\'] + (run + seq![c]));
    assert(s1.len() == m + 2);
}

proof fn lemma_closed_means_no_code(evs: Seq<MdEventModel>, k: int)
    requires
        0 <= k <= evs.len(),
    ensures
        plan_after(evs, k).lang is None ==> plan_after(evs, k).code.len() == 0,
    decreases k,
{
    if k > 0 {
        lemma_closed_means_no_code(evs, k - 1);
    }
}

/// The end of a code block with no fenced block open (an indented code
/// block, whose text was passed on) becomes the highlighting of empty code
/// with an empty token.
pub proof fn code_end_without_fence_highlights_nothing(before: Seq<MdEventModel>)
    requires
        plan_after(before, before.len() as int).lang is None,
    ensures
        code_block_plan(before.push(MdEventModel::CodeBlockEnd)) == code_block_plan(before).push(
            HtmlPieceModel::Html(highlighted_block(Seq::<char>::empty(), Seq::<char>::empty())),
        ),
{
    lemma_closed_means_no_code(before, before.len() as int);
    lemma_plan_prefix(before, seq![MdEventModel::CodeBlockEnd], before.len() as int);
    assert(before + seq![MdEventModel::CodeBlockEnd] =~= before.push(MdEventModel::CodeBlockEnd));
    assert(before.push(MdEventModel::CodeBlockEnd)[before.len() as int] == MdEventModel::CodeBlockEnd);
    assert(plan_after(before, before.len() as int).code =~= Seq::<char>::empty());
}

/// Rendering reads the Markdown only through the CJK pass: two posts that
/// the CJK pass turns into the same text render alike. And the rendered
/// HTML is the footnote pass applied to the HTML of the parsed CJK-passed
/// text with its code blocks highlighted, the parse enabling footnotes,
/// tables, strikethrough and task lists.
pub proof fn render_runs_the_three_passes(md1: Seq<char>, md2: Seq<char>)
    ensures
        cjk_friendly(md1) == cjk_friendly(md2) ==> rendered(md1) == rendered(md2),
        ({
            let pre = cjk_friendly(md1);
            let opts = ParseOptions { footnotes: true, tables: true, strikethrough: true, tasklists: true };
            rendered(md1) == footnotes_linked(
                html_of_pieces(opts, pre, code_block_plan(markdown_events(opts, pre))),
            )
        }),
{
}

} // verus!
