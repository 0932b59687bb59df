//! Highlighting a whole note line by line: fenced code blocks (with the
//! syntax ranges of their code), display-math blocks, and Markdown lines.
use vstd::prelude::*;
use crate::gui::highlight::{
    detect_line_context, fence_spans, highlight_fence_line, highlight_line, lemma_context_markers,
    line_context, line_view, styled_views, HighlightedLine, LineHeight, LineStyle, LineView,
};
use crate::highlight::{language_of, resolve_language, StyledRange};
use crate::markdown::block::{lemma_run_len, run_len, run_length};
use crate::text::{
    chars_of, lemma_back_ws_bounds, push_all, string_from_chars, string_views, trim, trim_chars, trim_end,
    trim_start, trim_start_chars, trimmed_end,
};
use crate::utf8len::{blen, lemma_blen_ascii_run, lemma_blen_mono};
use std::ops::Range;

verus! {

/// Number of highlight classes that have a syntax color.
pub const SYNTAX_COLOR_COUNT: usize = 12;

/// A fence line starts with three backticks.
pub open spec fn is_fence(l: Seq<char>) -> bool {
    l.len() >= 3 && l[0] == '`' && l[1] == '`' && l[2] == '`'
}

/// The language key a fence line names after its backticks.
pub open spec fn fence_language(l: Seq<char>) -> Option<Seq<char>> {
    language_of(trim(l.skip(run_len(l, 0, '`') as int)))
}

/// A line that opens a display-math block: `$$` after leading whitespace.
pub open spec fn opens_math(l: Seq<char>) -> bool {
    let t = trim_start(l);
    t.len() >= 2 && t[0] == '$' && t[1] == '$'
}

/// A line that is `$$` alone, once trimmed.
pub open spec fn is_math_delimiter(l: Seq<char>) -> bool {
    trim(l) == seq!['$', '$']
}

/// A line of math that ends its block: it ends with `$$` and is not `$$`
/// alone.
pub open spec fn closes_math(l: Seq<char>) -> bool {
    let t = trim_end(l);
    t.len() >= 2 && t[t.len() - 2] == '$' && t[t.len() - 1] == '$' && !is_math_delimiter(l)
}

/// Index of the first fence line at or after `j`, or the number of lines.
pub open spec fn fence_close(ls: Seq<Seq<char>>, j: int) -> int
    decreases ls.len() - j,
{
    if j < 0 || j >= ls.len() || is_fence(ls[j]) {
        j
    } else {
        fence_close(ls, j + 1)
    }
}

/// Index of the line after the end of a math block whose body starts at
/// line `j` (the number of lines when it is not closed).
pub open spec fn math_stop(ls: Seq<Seq<char>>, j: int) -> int
    decreases ls.len() - j,
{
    if j < 0 || j >= ls.len() {
        j
    } else if closes_math(ls[j]) || is_math_delimiter(ls[j]) {
        j + 1
    } else {
        math_stop(ls, j + 1)
    }
}

pub proof fn lemma_fence_close(ls: Seq<Seq<char>>, j: int)
    requires
        0 <= j <= ls.len(),
    ensures
        j <= fence_close(ls, j) <= ls.len(),
        fence_close(ls, j) < ls.len() ==> is_fence(ls[fence_close(ls, j)]),
        forall|q: int| j <= q < fence_close(ls, j) ==> !is_fence(#[trigger] ls[q]),
    decreases ls.len() - j,
{
    if j < ls.len() && !is_fence(ls[j]) {
        lemma_fence_close(ls, j + 1);
    }
}

pub proof fn lemma_math_stop(ls: Seq<Seq<char>>, j: int)
    requires
        0 <= j <= ls.len(),
    ensures
        j <= math_stop(ls, j) <= ls.len(),
        j < ls.len() ==> j < math_stop(ls, j),
    decreases ls.len() - j,
{
    if j < ls.len() && !(closes_math(ls[j]) || is_math_delimiter(ls[j])) {
        lemma_math_stop(ls, j + 1);
    }
}

/// A line shown with no image, the default height and no heading level.
pub open spec fn plain_view(spans: Seq<(int, int, LineStyle)>, code_background: bool) -> LineView {
    LineView {
        spans,
        urls: seq![],
        height: LineHeight::Default,
        heading_level: None,
        code_background,
    }
}

/// Byte length of a line, at least one.
pub open spec fn at_least_one(n: nat) -> int {
    if n > 1 {
        n as int
    } else {
        1
    }
}

/// A fence line.
pub open spec fn fence_view(l: Seq<char>) -> LineView {
    plain_view(fence_spans(l), true)
}

/// A line of code in a block of no known language.
pub open spec fn plain_code_view(l: Seq<char>) -> LineView {
    plain_view(seq![(0, at_least_one(blen(l)), LineStyle::CodeText)], true)
}

/// A `$$` line: its leading dollars, then the rest.
pub open spec fn math_delimiter_view(l: Seq<char>) -> LineView {
    let dc = run_len(l, 0, '$') as int;
    let n = blen(l) as int;
    plain_view(
        seq![(0, dc, LineStyle::MathDelimiter)] + if dc < n {
            seq![(dc, n, LineStyle::MathLine)]
        } else {
            seq![]
        },
        false,
    )
}

/// A line inside a math block.
pub open spec fn math_line_view(l: Seq<char>) -> LineView {
    plain_view(seq![(0, at_least_one(blen(l)), LineStyle::MathLine)], false)
}

/// A Markdown line, in the context it has outside code blocks.
pub open spec fn markdown_view(l: Seq<char>) -> LineView {
    line_view(l, line_context(l, false))
}

/// The part within the code line at bytes `[lbs, lbe)` of the block's text
/// of one syntax range (start, end, class), relative to the line; none when
/// they do not overlap or the class has no color.
pub open spec fn syntax_piece(s: (int, int, usize), lbs: int, lbe: int) -> Seq<(int, int, LineStyle)> {
    if s.1 <= lbs || s.0 >= lbe || s.2 >= SYNTAX_COLOR_COUNT {
        seq![]
    } else {
        seq![
            (
                if s.0 > lbs {
                    s.0
                } else {
                    lbs
                } - lbs,
                if s.1 < lbe {
                    s.1
                } else {
                    lbe
                } - lbs,
                LineStyle::Syntax(s.2),
            ),
        ]
    }
}

/// The syntax ranges of one code line, in the order of the block's ranges.
pub open spec fn syntax_spans(st: Seq<(int, int, usize)>, lbs: int, lbe: int) -> Seq<(int, int, LineStyle)>
    decreases st.len(),
{
    if st.len() == 0 {
        seq![]
    } else {
        syntax_spans(st.drop_last(), lbs, lbe) + syntax_piece(st.last(), lbs, lbe)
    }
}

/// The code lines of a block from line `t`, which starts at byte `lbs` of
/// the block's text (its lines joined by newlines).
pub open spec fn syntax_views(code: Seq<Seq<char>>, t: int, lbs: int, st: Seq<(int, int, usize)>) -> Seq<LineView>
    decreases code.len() - t,
{
    if t < 0 || t >= code.len() {
        seq![]
    } else {
        let lbe = lbs + blen(code[t]);
        seq![plain_view(syntax_spans(st, lbs, lbe), true)] + syntax_views(code, t + 1, lbe + 1, st)
    }
}

/// The code lines of a block, by syntax when its language is known.
pub open spec fn code_views(code: Seq<Seq<char>>, known: bool, st: Seq<(int, int, usize)>) -> Seq<LineView> {
    if known {
        syntax_views(code, 0, 0, st)
    } else {
        Seq::new(code.len(), |t: int| plain_code_view(code[t]))
    }
}

/// The lines of a math block from line `j` on, up to and including the one
/// that ends it.
pub open spec fn math_views(ls: Seq<Seq<char>>, j: int) -> Seq<LineView>
    decreases ls.len() - j,
{
    if j < 0 || j >= ls.len() {
        seq![]
    } else if closes_math(ls[j]) {
        seq![math_line_view(ls[j])]
    } else if is_math_delimiter(ls[j]) {
        seq![math_delimiter_view(ls[j])]
    } else {
        seq![math_line_view(ls[j])] + math_views(ls, j + 1)
    }
}

/// The syntax ranges given for the `k`-th code block of known language
/// (none when not given).
pub open spec fn syntax_at(syn: Seq<Seq<(int, int, usize)>>, k: int) -> Seq<(int, int, usize)> {
    if 0 <= k < syn.len() {
        syn[k]
    } else {
        seq![]
    }
}

/// Index of the line after a code block whose fence is line `i`: after
/// its closing fence, or the number of lines when it is not closed.
pub open spec fn block_end(ls: Seq<Seq<char>>, i: int) -> int {
    let j = fence_close(ls, i + 1);
    if j < ls.len() {
        j + 1
    } else {
        j
    }
}

/// The lines of a code block whose fence is line `i`: the fence, the code,
/// and the closing fence if there is one.
pub open spec fn fence_block_views(ls: Seq<Seq<char>>, i: int, st: Seq<(int, int, usize)>) -> Seq<LineView> {
    let j = fence_close(ls, i + 1);
    let body = code_views(ls.subrange(i + 1, j), fence_language(ls[i]) is Some, st);
    seq![fence_view(ls[i])] + body + if j < ls.len() {
        seq![fence_view(ls[j])]
    } else {
        seq![]
    }
}

/// How the lines from `i` on are shown, `k` code blocks of known language
/// having come before.
pub open spec fn doc_from(ls: Seq<Seq<char>>, i: int, k: int, syn: Seq<Seq<(int, int, usize)>>) -> Seq<LineView>
    decreases ls.len() - i,
{
    if i < 0 || i >= ls.len() {
        seq![]
    } else if is_fence(ls[i]) {
        proof {
            lemma_fence_close(ls, i + 1);
        }
        let nk = if fence_language(ls[i]) is Some {
            k + 1
        } else {
            k
        };
        fence_block_views(ls, i, syntax_at(syn, k)) + doc_from(ls, block_end(ls, i), nk, syn)
    } else if opens_math(ls[i]) {
        proof {
            lemma_math_stop(ls, i + 1);
        }
        seq![math_delimiter_view(ls[i])] + math_views(ls, i + 1) + doc_from(
            ls,
            math_stop(ls, i + 1),
            k,
            syn,
        )
    } else {
        seq![markdown_view(ls[i])] + doc_from(ls, i + 1, k, syn)
    }
}


/// Whether a line is a fence line.
fn is_fence_line(l: &[char]) -> (b: bool)
    ensures
        b == is_fence(l@),
{
    l.len() >= 3 && l[0] == '`' && l[1] == '`' && l[2] == '`'
}

/// The language key a fence line names.
fn fence_language_key(l: &[char]) -> (r: Option<&'static str>)
    ensures
        match r {
            Some(key) => fence_language(l@) == Some(key@),
            None => fence_language(l@) is None,
        },
{
    let bc = run_length(l, 0, '`');
    let rest = vstd::slice::slice_subrange(l, bc, l.len());
    let info = string_from_chars(trim_chars(rest).as_slice());
    resolve_language(info.as_str())
}

/// Whether a line opens a math block.
fn opens_math_line(l: &[char]) -> (b: bool)
    ensures
        b == opens_math(l@),
{
    let t = trim_start_chars(l);
    t.len() >= 2 && t[0] == '$' && t[1] == '$'
}

/// Whether a line is `$$` alone once trimmed.
fn is_math_delimiter_line(l: &[char]) -> (b: bool)
    ensures
        b == is_math_delimiter(l@),
{
    let t = trim_chars(l);
    let b = t.len() == 2 && t[0] == '$' && t[1] == '$';
    proof {
        if b {
            assert(t@ =~= seq!['$', '$']);
        }
    }
    b
}

/// Whether a math line ends its block.
fn closes_math_line(l: &[char]) -> (b: bool)
    ensures
        b == closes_math(l@),
{
    let e = trimmed_end(l);
    proof {
        lemma_back_ws_bounds(l@, l@.len() as int);
    }
    e >= 2 && l[e - 2] == '$' && l[e - 1] == '$' && !is_math_delimiter_line(l)
}

/// A `$$` line.
fn math_delimiter_line(line: &str) -> (r: HighlightedLine)
    ensures
        r.view() == math_delimiter_view(line@),
{
    let chars = chars_of(line);
    let l = chars.as_slice();
    let n = line.as_bytes().len();
    let dc = run_length(l, 0, '$');
    proof {
        lemma_run_len(l@, 0, '$');
        lemma_blen_ascii_run(l@.take(dc as int), '$');
        lemma_blen_mono(l@, dc as int, l@.len() as int);
        assert(l@.take(l@.len() as int) =~= l@);
    }
    let mut highlights: Vec<(Range<usize>, LineStyle)> = Vec::new();
    highlights.push((0..dc, LineStyle::MathDelimiter));
    if dc < n {
        highlights.push((dc..n, LineStyle::MathLine));
    }
    let r = HighlightedLine {
        highlights,
        image_urls: Vec::new(),
        line_height: LineHeight::Default,
        heading_level: None,
        code_background: false,
    };
    proof {
        let tail = if dc < n {
            seq![(dc as int, n as int, LineStyle::MathLine)]
        } else {
            seq![]
        };
        assert(styled_views(r.highlights@) =~= seq![(0int, dc as int, LineStyle::MathDelimiter)]
            + tail);
        assert(r.view() =~= math_delimiter_view(line@));
    }
    r
}

/// A line styled whole (at least one byte wide).
fn whole_line(line: &str, style: LineStyle, code_background: bool) -> (r: HighlightedLine)
    ensures
        r.view() == plain_view(
            seq![(0, at_least_one(blen(line@)), style)],
            code_background,
        ),
{
    let n = line.as_bytes().len();
    let all = if n > 1 {
        n
    } else {
        1
    };
    let mut highlights: Vec<(Range<usize>, LineStyle)> = Vec::new();
    highlights.push((0..all, style));
    let r = HighlightedLine {
        highlights,
        image_urls: Vec::new(),
        line_height: LineHeight::Default,
        heading_level: None,
        code_background,
    };
    proof {
        assert(styled_views(r.highlights@) =~= seq![(0int, all as int, style)]);
        assert(r.view() =~= plain_view(seq![(0, at_least_one(blen(line@)), style)], code_background));
    }
    r
}

/// A Markdown line, highlighted in the context detected for it.
fn markdown_line(line: &str) -> (r: HighlightedLine)
    ensures
        r.view() == markdown_view(line@),
{
    let context = detect_line_context(line, false);
    proof {
        lemma_context_markers(line@);
    }
    let r = highlight_line(line, &context);
    proof {
        assert(r.view() =~= markdown_view(line@));
    }
    r
}

/// A fence line.
fn fence_line(line: &str) -> (r: HighlightedLine)
    ensures
        r.view() == fence_view(line@),
{
    let r = highlight_fence_line(line);
    proof {
        assert(string_views(r.image_urls@) =~= Seq::<Seq<char>>::empty());
        assert(r.view() =~= fence_view(line@));
    }
    r
}

/// The ranges, classes of a list of syntax ranges.
pub open spec fn syntax_range_views(v: Seq<StyledRange>) -> Seq<(int, int, usize)> {
    Seq::new(v.len(), |t: int| (v[t].range.start as int, v[t].range.end as int, v[t].highlight_index))
}

/// The syntax ranges given for each code block.
pub open spec fn syntax_lists(v: Seq<Vec<StyledRange>>) -> Seq<Seq<(int, int, usize)>> {
    Seq::new(v.len(), |k: int| syntax_range_views(v[k]@))
}

/// A code line at bytes `[lbs, lbe)` of its block's text, styled by the
/// block's syntax ranges.
fn syntax_line(st: &[StyledRange], lbs: usize, lbe: usize) -> (r: HighlightedLine)
    requires
        lbs <= lbe,
    ensures
        r.view() == plain_view(syntax_spans(syntax_range_views(st@), lbs as int, lbe as int), true),
{
    let ghost sv = syntax_range_views(st@);
    let mut highlights: Vec<(Range<usize>, LineStyle)> = Vec::new();
    let mut t: usize = 0;
    while t < st.len()
        invariant
            t <= st@.len(),
            lbs <= lbe,
            sv == syntax_range_views(st@),
            styled_views(highlights@) == syntax_spans(sv.take(t as int), lbs as int, lbe as int),
        decreases st@.len() - t,
    {
        let ghost before = styled_views(highlights@);
        let start = st[t].range.start;
        let end = st[t].range.end;
        let index = st[t].highlight_index;
        if !(end <= lbs || start >= lbe || index >= SYNTAX_COLOR_COUNT) {
            let cs = if start > lbs {
                start
            } else {
                lbs
            };
            let ce = if end < lbe {
                end
            } else {
                lbe
            };
            highlights.push((cs - lbs..ce - lbs, LineStyle::Syntax(index)));
        }
        proof {
            assert(sv.take(t as int + 1).drop_last() =~= sv.take(t as int));
            assert(styled_views(highlights@) =~= before + syntax_piece(
                sv[t as int],
                lbs as int,
                lbe as int,
            ));
        }
        t += 1;
    }
    proof {
        assert(sv.take(sv.len() as int) =~= sv);
    }
    let r = HighlightedLine {
        highlights,
        image_urls: Vec::new(),
        line_height: LineHeight::Default,
        heading_level: None,
        code_background: true,
    };
    proof {
        assert(r.view() =~= plain_view(syntax_spans(sv, lbs as int, lbe as int), true));
    }
    r
}


/// The views of a list of highlighted lines.
pub open spec fn line_views(v: Seq<HighlightedLine>) -> Seq<LineView> {
    Seq::new(v.len(), |t: int| v[t].view())
}

/// Bytes of a block's text once its lines are joined by newlines, with one
/// more for a final newline.
pub open spec fn block_len(code: Seq<Seq<char>>) -> nat
    decreases code.len(),
{
    if code.len() == 0 {
        0
    } else {
        block_len(code.drop_last()) + blen(code.last()) + 1
    }
}

pub proof fn lemma_block_len_concat(a: Seq<Seq<char>>, b: Seq<Seq<char>>)
    ensures
        block_len(a + b) == block_len(a) + block_len(b),
    decreases b.len(),
{
    if b.len() == 0 {
        assert(a + b =~= a);
    } else {
        assert((a + b).drop_last() =~= a + b.drop_last());
        lemma_block_len_concat(a, b.drop_last());
    }
}

pub proof fn lemma_block_len_sub(ls: Seq<Seq<char>>, i: int, j: int)
    requires
        0 <= i <= j <= ls.len(),
    ensures
        block_len(ls.subrange(i, j)) <= block_len(ls),
        block_len(ls.take(i)) <= block_len(ls),
{
    assert(ls =~= ls.take(i) + ls.subrange(i, j) + ls.skip(j));
    lemma_block_len_concat(ls.take(i) + ls.subrange(i, j), ls.skip(j));
    lemma_block_len_concat(ls.take(i), ls.subrange(i, j));
}

/// Index of the first fence line at or after `j`.
fn find_fence(lines: &[String], j: usize) -> (r: usize)
    requires
        j <= lines@.len(),
    ensures
        r == fence_close(string_views(lines@), j as int),
{
    let ghost ls = string_views(lines@);
    let mut t = j;
    while t < lines.len()
        invariant
            j <= t <= lines@.len(),
            ls == string_views(lines@),
            fence_close(ls, t as int) == fence_close(ls, j as int),
        decreases lines@.len() - t,
    {
        let chars = chars_of(lines[t].as_str());
        if is_fence_line(chars.as_slice()) {
            return t;
        }
        t += 1;
    }
    t
}

/// The lines of a code block, `lines[i..j]`.
#[verifier::spinoff_prover]
fn code_block(lines: &[String], i: usize, j: usize, known: bool, st: &[StyledRange]) -> (r: Vec<HighlightedLine>)
    requires
        i <= j <= lines@.len(),
        block_len(string_views(lines@).subrange(i as int, j as int)) <= usize::MAX,
    ensures
        line_views(r@) == code_views(
            string_views(lines@).subrange(i as int, j as int),
            known,
            syntax_range_views(st@),
        ),
{
    let ghost code = string_views(lines@).subrange(i as int, j as int);
    let ghost sv = syntax_range_views(st@);
    let mut out: Vec<HighlightedLine> = Vec::new();
    let mut t = i;
    let mut lbs: usize = 0;
    while t < j
        invariant
            i <= t <= j <= lines@.len(),
            code == string_views(lines@).subrange(i as int, j as int),
            sv == syntax_range_views(st@),
            block_len(code) <= usize::MAX,
            known ==> lbs == block_len(code.take(t - i)),
            known ==> line_views(out@) + syntax_views(code, t - i, lbs as int, sv) == syntax_views(
                code,
                0,
                0,
                sv,
            ),
            !known ==> line_views(out@) =~= Seq::new(
                (t - i) as nat,
                |q: int| plain_code_view(code[q]),
            ),
        decreases j - t,
    {
        let line = lines[t].as_str();
        let ghost before = line_views(out@);
        let ghost q = t - i;
        proof {
            assert(code[q] == line@);
            assert(code.take(q + 1).drop_last() =~= code.take(q));
            assert(code.take(q + 1).last() == code[q]);
            lemma_block_len_sub(code, q + 1, code.len() as int);
        }
        if known {
            let lbe = lbs + line.as_bytes().len();
            out.push(syntax_line(st, lbs, lbe));
            proof {
                assert(line_views(out@) =~= before + seq![
                    plain_view(syntax_spans(sv, lbs as int, lbe as int), true),
                ]);
            }
            lbs = lbe + 1;
        } else {
            out.push(whole_line(line, LineStyle::CodeText, true));
            proof {
                assert(line_views(out@) =~= before + seq![plain_code_view(code[q])]);
            }
        }
        t += 1;
    }
    proof {
        if known {
            assert(line_views(out@) =~= line_views(out@) + syntax_views(
                code,
                t - i,
                lbs as int,
                sv,
            ));
        }
    }
    out
}

/// The lines of a math block from line `j` to the one that ends it, and
/// the index after them.
fn math_block(lines: &[String], j: usize) -> (r: (Vec<HighlightedLine>, usize))
    requires
        j <= lines@.len(),
    ensures
        line_views(r.0@) == math_views(string_views(lines@), j as int),
        r.1 == math_stop(string_views(lines@), j as int),
{
    let ghost ls = string_views(lines@);
    let mut out: Vec<HighlightedLine> = Vec::new();
    let mut t = j;
    while t < lines.len()
        invariant
            j <= t <= lines@.len(),
            ls == string_views(lines@),
            line_views(out@) + math_views(ls, t as int) == math_views(ls, j as int),
            math_stop(ls, t as int) == math_stop(ls, j as int),
        decreases lines@.len() - t,
    {
        let line = lines[t].as_str();
        let chars = chars_of(line);
        let ghost before = line_views(out@);
        proof {
            assert(ls[t as int] == line@);
        }
        if closes_math_line(chars.as_slice()) {
            out.push(whole_line(line, LineStyle::MathLine, false));
            proof {
                assert(line_views(out@) =~= before + math_views(ls, t as int));
            }
            return (out, t + 1);
        } else if is_math_delimiter_line(chars.as_slice()) {
            out.push(math_delimiter_line(line));
            proof {
                assert(line_views(out@) =~= before + math_views(ls, t as int));
            }
            return (out, t + 1);
        }
        out.push(whole_line(line, LineStyle::MathLine, false));
        proof {
            assert(line_views(out@) + math_views(ls, t + 1) =~= before + math_views(ls, t as int));
        }
        t += 1;
    }
    proof {
        assert(line_views(out@) + math_views(ls, t as int) =~= line_views(out@));
    }
    (out, t)
}


/// The lines of a code block whose fence is line `i`, and the index after it.
#[verifier::spinoff_prover]
fn fence_block(lines: &[String], i: usize, known: bool, st: &[StyledRange]) -> (r: (Vec<HighlightedLine>, usize))
    requires
        i < lines@.len(),
        is_fence(string_views(lines@)[i as int]),
        known == (fence_language(string_views(lines@)[i as int]) is Some),
        block_len(string_views(lines@)) <= usize::MAX,
    ensures
        line_views(r.0@) == fence_block_views(string_views(lines@), i as int, syntax_range_views(st@)),
        r.1 == block_end(string_views(lines@), i as int),
        i < r.1 <= lines@.len(),
{
    let ghost ls = string_views(lines@);
    let n = lines.len();
    let mut out: Vec<HighlightedLine> = Vec::new();
    out.push(fence_line(lines[i].as_str()));
    proof {
        lemma_fence_close(ls, i + 1);
    }
    let j = find_fence(lines, i + 1);
    proof {
        lemma_block_len_sub(ls, i + 1, j as int);
    }
    let mut body = code_block(lines, i + 1, j, known, st);
    let ghost body_v = line_views(body@);
    out.append(&mut body);
    if j < n {
        out.push(fence_line(lines[j].as_str()));
        proof {
            assert(line_views(out@) =~= seq![fence_view(ls[i as int])] + body_v + seq![
                fence_view(ls[j as int]),
            ]);
        }
        (out, j + 1)
    } else {
        proof {
            assert(line_views(out@) =~= seq![fence_view(ls[i as int])] + body_v + Seq::<
                LineView,
            >::empty());
        }
        (out, j)
    }
}

pub proof fn lemma_math_views_len(ls: Seq<Seq<char>>, j: int)
    requires
        0 <= j <= ls.len(),
    ensures
        math_views(ls, j).len() == math_stop(ls, j) - j,
    decreases ls.len() - j,
{
    if j < ls.len() && !closes_math(ls[j]) && !is_math_delimiter(ls[j]) {
        lemma_math_views_len(ls, j + 1);
    }
}

pub proof fn lemma_syntax_views_len(code: Seq<Seq<char>>, t: int, lbs: int, st: Seq<(int, int, usize)>)
    requires
        0 <= t <= code.len(),
    ensures
        syntax_views(code, t, lbs, st).len() == code.len() - t,
    decreases code.len() - t,
{
    if t < code.len() {
        lemma_syntax_views_len(code, t + 1, lbs + blen(code[t]) + 1, st);
    }
}

/// Every line of a note gets exactly one highlighted line.
pub proof fn lemma_doc_len(ls: Seq<Seq<char>>, i: int, k: int, syn: Seq<Seq<(int, int, usize)>>)
    requires
        0 <= i <= ls.len(),
    ensures
        doc_from(ls, i, k, syn).len() == ls.len() - i,
    decreases ls.len() - i,
{
    if i < ls.len() {
        if is_fence(ls[i]) {
            lemma_fence_close(ls, i + 1);
            let j = fence_close(ls, i + 1);
            let nk = if fence_language(ls[i]) is Some {
                k + 1
            } else {
                k
            };
            lemma_syntax_views_len(ls.subrange(i + 1, j), 0, 0, syntax_at(syn, k));
            lemma_doc_len(ls, block_end(ls, i), nk, syn);
        } else if opens_math(ls[i]) {
            lemma_math_stop(ls, i + 1);
            lemma_math_views_len(ls, i + 1);
            lemma_doc_len(ls, math_stop(ls, i + 1), k, syn);
        } else {
            lemma_doc_len(ls, i + 1, k, syn);
        }
    }
}

/// Highlights every line of a note: a fenced code block's lines by the
/// syntax ranges given for it (`syntax[k]` for the `k`-th block whose
/// language is known; none when not given) or plainly when its language is
/// not known, a display-math block's lines as math, and every other line by
/// its Markdown context. One highlighted line comes out per line.
#[verifier::spinoff_prover]
#[verifier::rlimit(40)]
pub fn build_highlights(lines: &[String], syntax: &[Vec<StyledRange>]) -> (r: Vec<HighlightedLine>)
    requires
        block_len(string_views(lines@)) <= usize::MAX,
    ensures
        line_views(r@) == doc_from(string_views(lines@), 0, 0, syntax_lists(syntax@)),
        r@.len() == lines@.len(),
{
    let ghost ls = string_views(lines@);
    let ghost syn = syntax_lists(syntax@);
    let n = lines.len();
    let mut out: Vec<HighlightedLine> = Vec::new();
    let mut i: usize = 0;
    let mut k: usize = 0;
    while i < n
        invariant
            n == lines@.len(),
            ls == string_views(lines@),
            syn == syntax_lists(syntax@),
            block_len(ls) <= usize::MAX,
            k <= i <= n,
            line_views(out@) + doc_from(ls, i as int, k as int, syn) == doc_from(ls, 0, 0, syn),
        decreases n - i,
    {
        let line = lines[i].as_str();
        let chars = chars_of(line);
        let ghost before = line_views(out@);
        let ghost i0 = i as int;
        let ghost k0 = k as int;
        proof {
            assert(ls[i0] == line@);
        }
        if is_fence_line(chars.as_slice()) {
            let known = fence_language_key(chars.as_slice()).is_some();
            let empty: Vec<StyledRange> = Vec::new();
            let (mut block, next) = if k < syntax.len() {
                fence_block(lines, i, known, syntax[k].as_slice())
            } else {
                proof {
                    assert(syntax_range_views(empty@) =~= syntax_at(syn, k0));
                }
                fence_block(lines, i, known, empty.as_slice())
            };
            let ghost block_v = line_views(block@);
            out.append(&mut block);
            if known {
                k += 1;
            }
            proof {
                assert(line_views(out@) =~= before + block_v);
                assert(line_views(out@) + doc_from(ls, next as int, k as int, syn) =~= before
                    + doc_from(ls, i0, k0, syn));
            }
            i = next;
        } else if opens_math_line(chars.as_slice()) {
            out.push(math_delimiter_line(line));
            proof {
                lemma_math_stop(ls, i0 + 1);
            }
            let (mut body, stop) = math_block(lines, i + 1);
            let ghost body_v = line_views(body@);
            out.append(&mut body);
            proof {
                assert(line_views(out@) =~= before + (seq![math_delimiter_view(ls[i0])] + body_v));
                assert(line_views(out@) + doc_from(ls, stop as int, k as int, syn) =~= before
                    + doc_from(ls, i0, k0, syn));
            }
            i = stop;
        } else {
            out.push(markdown_line(line));
            proof {
                assert(line_views(out@) =~= before + seq![markdown_view(ls[i0])]);
                assert(line_views(out@) + doc_from(ls, i0 + 1, k0, syn) =~= before + doc_from(
                    ls,
                    i0,
                    k0,
                    syn,
                ));
            }
            i += 1;
        }
    }
    proof {
        assert(line_views(out@) + doc_from(ls, n as int, k as int, syn) =~= line_views(out@));
        lemma_doc_len(ls, 0, 0, syn);
        assert(line_views(out@).len() == out@.len());
    }
    out
}


/// Lines joined by newlines.
pub open spec fn join_lines(code: Seq<Seq<char>>) -> Seq<char>
    decreases code.len(),
{
    if code.len() == 0 {
        seq![]
    } else if code.len() == 1 {
        code[0]
    } else {
        join_lines(code.drop_last()) + seq!['\n'] + code.last()
    }
}

/// The language key and the text of each code block of known language
/// from line `i` on, in order: what the syntax ranges of
/// [`build_highlights`] are computed from.
pub open spec fn code_block_texts(ls: Seq<Seq<char>>, i: int) -> Seq<(Seq<char>, Seq<char>)>
    decreases ls.len() - i,
{
    if i < 0 || i >= ls.len() {
        seq![]
    } else if is_fence(ls[i]) {
        proof {
            lemma_fence_close(ls, i + 1);
        }
        let rest = code_block_texts(ls, block_end(ls, i));
        match fence_language(ls[i]) {
            Some(key) => seq![(key, join_lines(ls.subrange(i + 1, fence_close(ls, i + 1))))]
                + rest,
            None => rest,
        }
    } else if opens_math(ls[i]) {
        proof {
            lemma_math_stop(ls, i + 1);
        }
        code_block_texts(ls, math_stop(ls, i + 1))
    } else {
        code_block_texts(ls, i + 1)
    }
}

/// The text of `lines[i..j]` joined by newlines.
fn join_code(lines: &[String], i: usize, j: usize) -> (s: String)
    requires
        i <= j <= lines@.len(),
    ensures
        s@ == join_lines(string_views(lines@).subrange(i as int, j as int)),
{
    let ghost ls = string_views(lines@);
    let mut v: Vec<char> = Vec::new();
    let mut t = i;
    while t < j
        invariant
            i <= t <= j <= lines@.len(),
            ls == string_views(lines@),
            v@ == join_lines(ls.subrange(i as int, t as int)),
        decreases j - t,
    {
        let chars = chars_of(lines[t].as_str());
        proof {
            let sub = ls.subrange(i as int, t + 1);
            assert(sub.drop_last() =~= ls.subrange(i as int, t as int));
            assert(sub.last() == ls[t as int]);
            assert(ls[t as int] == lines@[t as int]@);
            if t == i {
                assert(ls.subrange(i as int, t as int) =~= Seq::<Seq<char>>::empty());
            }
        }
        if t > i {
            v.push('\n');
        }
        push_all(&mut v, chars.as_slice());
        proof {
            if t == i {
                assert(v@ =~= join_lines(ls.subrange(i as int, t + 1)));
            }
        }
        t += 1;
    }
    string_from_chars(v.as_slice())
}

/// The language key and text of each code block of known language, in
/// order: what the syntax ranges handed to [`build_highlights`] are
/// computed from.
#[verifier::spinoff_prover]
pub fn code_blocks(lines: &[String]) -> (r: Vec<(&'static str, String)>)
    ensures
        r@.len() == code_block_texts(string_views(lines@), 0).len(),
        forall|q: int|
            0 <= q < r@.len() ==> (#[trigger] r@[q]).0@ == code_block_texts(
                string_views(lines@),
                0,
            )[q].0 && r@[q].1@ == code_block_texts(string_views(lines@), 0)[q].1,
{
    let ghost ls = string_views(lines@);
    let ghost all = code_block_texts(ls, 0);
    let n = lines.len();
    let mut out: Vec<(&'static str, String)> = Vec::new();
    let ghost mut got: Seq<(Seq<char>, Seq<char>)> = seq![];
    let mut i: usize = 0;
    while i < n
        invariant
            n == lines@.len(),
            i <= n,
            ls == string_views(lines@),
            all == code_block_texts(ls, 0),
            got + code_block_texts(ls, i as int) == all,
            out@.len() == got.len(),
            forall|q: int| 0 <= q < out@.len() ==> (#[trigger] out@[q]).0@ == got[q].0 && out@[q].1@ == got[q].1,
        decreases n - i,
    {
        let chars = chars_of(lines[i].as_str());
        proof {
            assert(ls[i as int] == lines@[i as int]@);
        }
        if is_fence_line(chars.as_slice()) {
            proof {
                lemma_fence_close(ls, i + 1);
            }
            let key = fence_language_key(chars.as_slice());
            let j = find_fence(lines, i + 1);
            let next = if j < n {
                j + 1
            } else {
                j
            };
            if let Some(k) = key {
                let text = join_code(lines, i + 1, j);
                let ghost item = (k@, text@);
                out.push((k, text));
                proof {
                    assert(code_block_texts(ls, i as int) == seq![item] + code_block_texts(ls, next as int));
                    assert(got + seq![item] + code_block_texts(ls, next as int) =~= got + code_block_texts(ls, i as int));
                    got = got + seq![item];
                }
            }
            i = next;
        } else if opens_math_line(chars.as_slice()) {
            proof {
                lemma_math_stop(ls, i + 1);
            }
            let (_, stop) = math_block(lines, i + 1);
            i = stop;
        } else {
            i += 1;
        }
    }
    proof {
        assert(got =~= all);
    }
    out
}

} // verus!
