//! The Markdown context of a single editor line, which decides how the
//! line is styled.
use vstd::prelude::*;
use crate::markdown::ast::opt_view;
use crate::markdown::block::{find_pair, find_pair_at, lemma_find_pair, lemma_run_len, run_len, run_length};
use crate::markdown::inline::{find_char, lemma_find_char};
use crate::text::{chars_of, string_views};
use crate::utf8len::{blen, is_boundary, lemma_ascii_prefix_boundary, char_utf8_len, lemma_blen_ascii_run, lemma_blen_concat, lemma_blen_mono, lemma_blen_single};
use crate::text::{back_ws_from, lemma_back_ws_bounds, lemma_skip_ws_bounds, skip_ws_from, trim, trim_chars, trim_end, trim_start, trimmed_end, ws_prefix_len};
use std::ops::Range;
use vstd::utf8::encode_utf8;

verus! {

/// What kind of Markdown line a line of the editor is.
#[derive(Debug, Clone)]
pub enum BlockContext {
    Normal,
    Heading { level: u8 },
    ListItem { marker_len: usize },
    BlockQuote,
    CodeBlock { language: Option<String> },
    TableSeparator,
    TableRow,
}

/// Model of [`BlockContext`].
pub enum ContextModel {
    Normal,
    Heading(u8),
    ListItem(nat),
    BlockQuote,
    CodeBlock(Option<Seq<char>>),
    TableSeparator,
    TableRow,
}

impl BlockContext {
    pub open spec fn view(self) -> ContextModel {
        match self {
            BlockContext::Normal => ContextModel::Normal,
            BlockContext::Heading { level } => ContextModel::Heading(level),
            BlockContext::ListItem { marker_len } => ContextModel::ListItem(marker_len as nat),
            BlockContext::BlockQuote => ContextModel::BlockQuote,
            BlockContext::CodeBlock { language } => ContextModel::CodeBlock(opt_view(language)),
            BlockContext::TableSeparator => ContextModel::TableSeparator,
            BlockContext::TableRow => ContextModel::TableRow,
        }
    }
}

/// Characters a table separator line is made of.
pub open spec fn sep_char(c: char) -> bool {
    c == '|' || c == '-' || c == ':' || c == ' ' || c == '\t'
}

/// Heading level of a line: its leading `#`s, at most six counted.
pub open spec fn hash_level(l: Seq<char>) -> nat {
    let r = run_len(l, 0, '#');
    if r > 6 {
        6
    } else {
        r
    }
}

/// The digits before the first `. ` of a numbered list item.
pub open spec fn all_ascii_digits(d: Seq<char>) -> bool {
    forall|k: int| 0 <= k < d.len() ==> '0' <= #[trigger] d[k] <= '9'
}

/// The context of a line, given whether it lies inside a code block.
pub open spec fn line_context(l: Seq<char>, in_code_block: bool) -> ContextModel {
    let lv = hash_level(l);
    if in_code_block {
        ContextModel::CodeBlock(None)
    } else if l.len() > 0 && l[0] == '#' && (lv == l.len() || l[lv as int] == ' ') {
        ContextModel::Heading(lv as u8)
    } else if l.len() > 0 && l[0] == '|' {
        if (forall|k: int| 0 <= k < l.len() ==> #[trigger] sep_char(l[k])) && find_char(l, 0, '-')
            is Some {
            ContextModel::TableSeparator
        } else {
            ContextModel::TableRow
        }
    } else if l.len() >= 2 && (l[0] == '-' || l[0] == '*' || l[0] == '+') && l[1] == ' ' {
        ContextModel::ListItem(2)
    } else if find_pair(l, 0, '.', ' ') matches Some(k) && k > 0 && all_ascii_digits(l.take(k)) {
        ContextModel::ListItem((find_pair(l, 0, '.', ' ')->0 + 2) as nat)
    } else if l.len() > 0 && l[0] == '>' {
        ContextModel::BlockQuote
    } else {
        ContextModel::Normal
    }
}

/// The Markdown context of one line of the editor.
pub fn detect_line_context(line: &str, in_code_block: bool) -> (r: BlockContext)
    ensures
        r.view() == line_context(line@, in_code_block),
{
    if in_code_block {
        return BlockContext::CodeBlock { language: None };
    }
    let chars = chars_of(line);
    let l = chars.as_slice();
    let n = l.len();
    if n > 0 && l[0] == '#' {
        let run = run_length(l, 0, '#');
        let level: usize = if run > 6 {
            6
        } else {
            run
        };
        if level == n || l[level] == ' ' {
            return BlockContext::Heading { level: level as u8 };
        }
    }
    if n > 0 && l[0] == '|' {
        let mut is_sep = true;
        let mut k: usize = 0;
        while k < n
            invariant
                k <= n,
                n == l@.len(),
                is_sep == (forall|q: int| 0 <= q < k ==> #[trigger] sep_char(l@[q])),
            decreases n - k,
        {
            let c = l[k];
            if !(c == '|' || c == '-' || c == ':' || c == ' ' || c == '\t') {
                is_sep = false;
            }
            proof {
                assert(sep_char(l@[k as int]) == (c == '|' || c == '-' || c == ':' || c == ' '
                    || c == '\t'));
            }
            k += 1;
        }
        if is_sep && crate::markdown::inline::find_closing_single(l, 0, '-').is_some() {
            return BlockContext::TableSeparator;
        }
        return BlockContext::TableRow;
    }
    if n >= 2 && (l[0] == '-' || l[0] == '*' || l[0] == '+') && l[1] == ' ' {
        return BlockContext::ListItem { marker_len: 2 };
    }
    if let Some(dot_pos) = find_pair_at(l, 0, '.', ' ') {
        proof {
            lemma_find_pair(l@, 0, '.', ' ');
        }
        if dot_pos > 0 {
            let mut digits = true;
            let mut k: usize = 0;
            while k < dot_pos
                invariant
                    k <= dot_pos < n,
                    n == l@.len(),
                    digits == (forall|q: int| 0 <= q < k ==> '0' <= #[trigger] l@[q] <= '9'),
                decreases dot_pos - k,
            {
                if !('0' <= l[k] && l[k] <= '9') {
                    digits = false;
                }
                k += 1;
            }
            proof {
                assert(digits == all_ascii_digits(l@.take(dot_pos as int))) by {
                    assert forall|q: int| 0 <= q < dot_pos implies l@.take(dot_pos as int)[q]
                        == l@[q] by {}
                    if !digits {
                        let q = choose|q: int| 0 <= q < dot_pos && !('0' <= #[trigger] l@[q] <= '9');
                        assert(l@.take(dot_pos as int)[q] == l@[q]);
                    }
                }
            }
            if digits {
                return BlockContext::ListItem { marker_len: dot_pos + 2 };
            }
        }
    }
    if n > 0 && l[0] == '>' {
        return BlockContext::BlockQuote;
    }
    BlockContext::Normal
}

/// How the editor styles a byte range of a line.
#[derive(Debug, Clone, Copy, PartialEq, Eq, Structural)]
pub enum SpanKind {
    BoldMarker,
    Bold,
    StrikeMarker,
    Strike,
    ItalicMarker,
    Italic,
    CodeMarker,
    Code,
    Image,
    Link,
    MathMarker,
    Math,
}

/// First `j >= i` with `b[j] == b[j + 1] == m`.
pub open spec fn byte_double(b: Seq<u8>, i: int, m: u8) -> Option<int>
    decreases b.len() - i,
{
    if i < 0 || i + 1 >= b.len() {
        None
    } else if b[i] == m && b[i + 1] == m {
        Some(i)
    } else {
        byte_double(b, i + 1, m)
    }
}

/// First `j >= i` with `b[j] == m`.
pub open spec fn byte_find(b: Seq<u8>, i: int, m: u8) -> Option<int>
    decreases b.len() - i,
{
    if i < 0 || i >= b.len() {
        None
    } else if b[i] == m {
        Some(i)
    } else {
        byte_find(b, i + 1, m)
    }
}

/// Length of the run of backticks at `i`.
pub open spec fn byte_ticks(b: Seq<u8>, i: int) -> nat
    decreases b.len() - i,
{
    if 0 <= i < b.len() && b[i] == 96 {
        1 + byte_ticks(b, i + 1)
    } else {
        0
    }
}

/// First `j >= i` where `n` backticks follow.
pub open spec fn byte_tick_run(b: Seq<u8>, i: int, n: nat) -> Option<int>
    decreases b.len() + 1 - i,
{
    if i < 0 || i + n > b.len() {
        None
    } else if forall|k: int| i <= k < i + n ==> b[k] == 96 {
        Some(i)
    } else {
        byte_tick_run(b, i + 1, n)
    }
}

/// `text](url)` from `st`: the positions of `]` and `)`.
pub open spec fn byte_link(b: Seq<u8>, st: int) -> Option<(int, int)> {
    match byte_find(b, st, 93) {
        None => None,
        Some(j) => if j + 1 < b.len() && b[j + 1] == 40 {
            match byte_find(b, j + 2, 41) {
                None => None,
                Some(k) => Some((j, k)),
            }
        } else {
            None
        },
    }
}

/// `String::from_utf8_lossy`: the text of some bytes, with U+FFFD for each
/// invalid sequence.
pub uninterp spec fn utf8_lossy(b: Seq<u8>) -> Seq<char>;

/// `String::from_utf8_lossy(b).to_string()`: the bytes decoded, which for
/// valid UTF-8 is exactly their text.
#[verifier::external_body]
fn decode_lossy(b: &[u8]) -> (r: String)
    ensures
        r@ == utf8_lossy(b@),
        vstd::utf8::valid_utf8(b@) ==> r@ == vstd::utf8::decode_utf8(b@),
{
    String::from_utf8_lossy(b).to_string()
}

pub proof fn lemma_byte_double(b: Seq<u8>, i: int, m: u8)
    ensures
        byte_double(b, i, m) matches Some(e) ==> i <= e && e + 1 < b.len() && b[e] == m && b[e
            + 1] == m,
    decreases b.len() - i,
{
    if !(i < 0 || i + 1 >= b.len()) && !(b[i] == m && b[i + 1] == m) {
        lemma_byte_double(b, i + 1, m);
    }
}

pub proof fn lemma_byte_find(b: Seq<u8>, i: int, m: u8)
    ensures
        byte_find(b, i, m) matches Some(e) ==> i <= e < b.len() && b[e] == m,
    decreases b.len() - i,
{
    if 0 <= i < b.len() && b[i] != m {
        lemma_byte_find(b, i + 1, m);
    }
}

pub proof fn lemma_byte_ticks(b: Seq<u8>, i: int)
    requires
        0 <= i <= b.len(),
    ensures
        i < b.len() && b[i] == 96 ==> byte_ticks(b, i) >= 1,
        byte_ticks(b, i) <= b.len() - i,
        forall|k: int| i <= k < i + byte_ticks(b, i) ==> b[k] == 96,
    decreases b.len() - i,
{
    if i < b.len() && b[i] == 96 {
        lemma_byte_ticks(b, i + 1);
    }
}

pub proof fn lemma_byte_tick_run(b: Seq<u8>, i: int, n: nat)
    ensures
        byte_tick_run(b, i, n) matches Some(e) ==> i <= e && e + n <= b.len() && forall|k: int|
            e <= k < e + n ==> b[k] == 96,
    decreases b.len() + 1 - i,
{
    if !(i < 0 || i + n > b.len()) && !(forall|k: int| i <= k < i + n ==> b[k] == 96) {
        lemma_byte_tick_run(b, i + 1, n);
    }
}

pub proof fn lemma_byte_link(b: Seq<u8>, st: int)
    ensures
        byte_link(b, st) matches Some((j, k)) ==> st <= j && j + 2 <= k < b.len() && b[k] == 41,
{
    lemma_byte_find(b, st, 93);
    if let Some(j) = byte_find(b, st, 93) {
        lemma_byte_find(b, j + 2, 41);
    }
}

/// The styled spans the scanner finds at byte `i` (with their offsets
/// shifted by `off`), the image URL it reads there if any, and where it
/// resumes.
pub open spec fn span_step(b: Seq<u8>, i: int, off: int) -> (Seq<(int, int, SpanKind)>, Option<Seq<char>>, int) {
    let n = b.len() as int;
    let c = b[i];
    let three = |a: int, x: int, e: int, w: int, mk: SpanKind, k: SpanKind|
        seq![(off + a, off + x, mk), (off + x, off + e, k), (off + e, off + e + w, mk)];
    if (c == 42 || c == 95) && i + 1 < n && b[i + 1] == c && byte_double(b, i + 2, c) is Some {
        let e = byte_double(b, i + 2, c)->0;
        (three(i, i + 2, e, 2, SpanKind::BoldMarker, SpanKind::Bold), None, e + 2)
    } else if c == 126 && i + 1 < n && b[i + 1] == 126 && byte_double(b, i + 2, 126) is Some {
        let e = byte_double(b, i + 2, 126)->0;
        (three(i, i + 2, e, 2, SpanKind::StrikeMarker, SpanKind::Strike), None, e + 2)
    } else if (c == 42 || c == 95) && i + 1 < n && b[i + 1] == c {
        (seq![], None, i + 1)
    } else if (c == 42 || c == 95) && byte_find(b, i + 1, c) is Some {
        let e = byte_find(b, i + 1, c)->0;
        (three(i, i + 1, e, 1, SpanKind::ItalicMarker, SpanKind::Italic), None, e + 1)
    } else if c == 96 && byte_tick_run(b, i + byte_ticks(b, i), byte_ticks(b, i)) is Some {
        let w = byte_ticks(b, i);
        let e = byte_tick_run(b, i + w, w)->0;
        (three(i, i + w, e, w as int, SpanKind::CodeMarker, SpanKind::Code), None, e + w)
    } else if c == 33 && i + 1 < n && b[i + 1] == 91 && byte_link(b, i + 2) is Some {
        let (j, k) = byte_link(b, i + 2)->0;
        (seq![(off + i, off + k + 1, SpanKind::Image)], Some(utf8_lossy(b.subrange(j + 2, k))), k
            + 1)
    } else if c == 91 && byte_link(b, i + 1) is Some {
        let (j, k) = byte_link(b, i + 1)->0;
        (seq![(off + i, off + k + 1, SpanKind::Link)], None, k + 1)
    } else if c == 36 && byte_find(b, i + 1, 36) is Some {
        let e = byte_find(b, i + 1, 36)->0;
        (three(i, i + 1, e, 1, SpanKind::MathMarker, SpanKind::Math), None, e + 1)
    } else {
        (seq![], None, i + 1)
    }
}

pub proof fn lemma_span_step(b: Seq<u8>, i: int, off: int)
    requires
        0 <= i < b.len(),
    ensures
        i < span_step(b, i, off).2 <= b.len(),
{
    let c = b[i];
    lemma_byte_double(b, i + 2, c);
    lemma_byte_double(b, i + 2, 126);
    lemma_byte_find(b, i + 1, c);
    lemma_byte_ticks(b, i);
    lemma_byte_tick_run(b, i + byte_ticks(b, i), byte_ticks(b, i));
    lemma_byte_link(b, i + 2);
    lemma_byte_link(b, i + 1);
    lemma_byte_find(b, i + 1, 36);
}

/// Byte `p` is next to a byte below `0x80`: the byte at `p` or the one
/// before it.
pub open spec fn ascii_edge(b: Seq<u8>, p: int) -> bool {
    (0 <= p < b.len() && b[p] < 0x80) || (0 < p <= b.len() && b[p - 1] < 0x80)
}

/// The range `(x, y)` (shifted by `off`) lies in `b` between `lo` and `hi`
/// and both its ends are next to bytes below `0x80`.
pub open spec fn edged(b: Seq<u8>, r: (int, int, SpanKind), off: int, lo: int, hi: int) -> bool {
    &&& lo <= r.0 - off <= r.1 - off <= hi
    &&& ascii_edge(b, r.0 - off)
    &&& ascii_edge(b, r.1 - off)
}

proof fn lemma_span_step_edges(b: Seq<u8>, i: int, off: int)
    requires
        0 <= i < b.len(),
    ensures
        forall|k: int|
            0 <= k < span_step(b, i, off).0.len() ==> edged(
                b,
                #[trigger] span_step(b, i, off).0[k],
                off,
                i,
                span_step(b, i, off).2,
            ),
{
    let c = b[i];
    lemma_span_step(b, i, off);
    lemma_byte_double(b, i + 2, c);
    lemma_byte_double(b, i + 2, 126);
    lemma_byte_find(b, i + 1, c);
    lemma_byte_ticks(b, i);
    lemma_byte_tick_run(b, i + byte_ticks(b, i), byte_ticks(b, i));
    lemma_byte_link(b, i + 2);
    lemma_byte_link(b, i + 1);
    lemma_byte_find(b, i + 1, 36);
    let st = span_step(b, i, off);
    if c == 96 && byte_tick_run(b, i + byte_ticks(b, i), byte_ticks(b, i)) is Some {
        let w = byte_ticks(b, i);
        let e = byte_tick_run(b, i + w, w)->0;
        assert(b[i + w - 1] == 96);
        assert(b[e] == 96);
        assert(b[e + w - 1] == 96);
    }
    assert forall|k: int| 0 <= k < st.0.len() implies edged(b, #[trigger] st.0[k], off, i, st.2) by {
    }
}

proof fn lemma_spans_edges(b: Seq<u8>, i: int, off: int)
    requires
        0 <= i,
    ensures
        forall|k: int|
            0 <= k < spans_from(b, i, off).0.len() ==> edged(
                b,
                #[trigger] spans_from(b, i, off).0[k],
                off,
                i,
                b.len() as int,
            ),
    decreases b.len() - i,
{
    if i < b.len() {
        lemma_span_step(b, i, off);
        lemma_span_step_edges(b, i, off);
        let (sp, img, nx) = span_step(b, i, off);
        lemma_spans_edges(b, nx, off);
        let rest = spans_from(b, nx, off).0;
        let all = spans_from(b, i, off).0;
        assert(all == sp + rest);
        assert forall|k: int| 0 <= k < all.len() implies edged(b, #[trigger] all[k], off, i, b.len() as int) by {
            if k < sp.len() {
                assert(all[k] == sp[k]);
                assert(edged(b, sp[k], off, i, nx));
            } else {
                assert(all[k] == rest[k - sp.len()]);
            }
        }
    }
}

/// A byte next to a byte below `0x80` is a character boundary of the text.
proof fn lemma_edge_boundary(l: Seq<char>, p: int)
    requires
        ascii_edge(encode_utf8(l), p),
    ensures
        0 <= p <= blen(l),
        is_boundary(l, p),
{
    let b = encode_utf8(l);
    if 0 <= p < b.len() && b[p] < 0x80 {
        crate::utf8len::lemma_ascii_byte_boundaries(l, p);
    } else {
        crate::utf8len::lemma_ascii_byte_boundaries(l, p - 1);
    }
}

/// Every inline span of a line, scanned from byte `skip` on, lies within
/// the line after `skip` and starts and ends between characters.
pub proof fn law_inline_spans_in_line(l: Seq<char>, skip: int)
    requires
        0 <= skip <= blen(l),
    ensures
        forall|k: int|
            0 <= k < inline_from(encode_utf8(l), skip).0.len() ==> {
                let r = #[trigger] inline_from(encode_utf8(l), skip).0[k];
                &&& skip <= r.0 <= r.1 <= blen(l)
                &&& is_boundary(l, r.0)
                &&& is_boundary(l, r.1)
            },
{
    let b = encode_utf8(l);
    let sb = b.subrange(skip, b.len() as int);
    lemma_spans_edges(sb, 0, skip);
    let sp = inline_from(b, skip).0;
    assert forall|k: int| 0 <= k < sp.len() implies {
        let r = #[trigger] sp[k];
        &&& skip <= r.0 <= r.1 <= blen(l)
        &&& is_boundary(l, r.0)
        &&& is_boundary(l, r.1)
    } by {
        let r = sp[k];
        assert(edged(sb, r, skip, 0, sb.len() as int));
        assert(ascii_edge(b, r.0)) by {
            if 0 <= r.0 - skip < sb.len() && sb[r.0 - skip] < 0x80 {
                assert(sb[r.0 - skip] == b[r.0]);
            } else {
                assert(sb[r.0 - skip - 1] == b[r.0 - 1]);
            }
        }
        assert(ascii_edge(b, r.1)) by {
            if 0 <= r.1 - skip < sb.len() && sb[r.1 - skip] < 0x80 {
                assert(sb[r.1 - skip] == b[r.1]);
            } else {
                assert(sb[r.1 - skip - 1] == b[r.1 - 1]);
            }
        }
        lemma_edge_boundary(l, r.0);
        lemma_edge_boundary(l, r.1);
    }
}

/// The spans and image URLs found from byte `i` on.
pub open spec fn spans_from(b: Seq<u8>, i: int, off: int) -> (Seq<(int, int, SpanKind)>, Seq<Seq<char>>)
    decreases b.len() - i,
{
    if i < 0 || i >= b.len() {
        (seq![], seq![])
    } else {
        proof {
            lemma_span_step(b, i, off);
        }
        let (sp, img, nx) = span_step(b, i, off);
        let rest = spans_from(b, nx, off);
        (
            sp + rest.0,
            match img {
                Some(u) => seq![u] + rest.1,
                None => rest.1,
            },
        )
    }
}

fn find_closing_double(bytes: &[u8], start: usize, marker: u8) -> (r: Option<usize>)
    ensures
        match r {
            Some(e) => byte_double(bytes@, start as int, marker) == Some(e as int),
            None => byte_double(bytes@, start as int, marker) is None,
        },
{
    let mut i = start;
    while i < bytes.len() && bytes.len() - i > 1
        invariant
            start <= i,
            byte_double(bytes@, start as int, marker) == byte_double(bytes@, i as int, marker),
        decreases bytes.len() - i,
    {
        if bytes[i] == marker && bytes[i + 1] == marker {
            return Some(i);
        }
        i += 1;
    }
    None
}

fn find_closing_single(bytes: &[u8], start: usize, marker: u8) -> (r: Option<usize>)
    ensures
        match r {
            Some(e) => byte_find(bytes@, start as int, marker) == Some(e as int),
            None => byte_find(bytes@, start as int, marker) is None,
        },
{
    let mut i = start;
    while i < bytes.len()
        invariant
            start <= i,
            byte_find(bytes@, start as int, marker) == byte_find(bytes@, i as int, marker),
        decreases bytes.len() - i,
    {
        if bytes[i] == marker {
            return Some(i);
        }
        i += 1;
    }
    None
}

fn count_backticks(bytes: &[u8], start: usize) -> (r: usize)
    requires
        start <= bytes@.len(),
    ensures
        r == byte_ticks(bytes@, start as int),
{
    let mut j = start;
    while j < bytes.len() && bytes[j] == 96
        invariant
            start <= j <= bytes@.len(),
            byte_ticks(bytes@, start as int) == (j - start) + byte_ticks(bytes@, j as int),
        decreases bytes@.len() - j,
    {
        j += 1;
    }
    j - start
}

fn find_closing_backticks(bytes: &[u8], start: usize, count: usize) -> (r: Option<usize>)
    ensures
        match r {
            Some(e) => byte_tick_run(bytes@, start as int, count as nat) == Some(e as int),
            None => byte_tick_run(bytes@, start as int, count as nat) is None,
        },
{
    let mut i = start;
    while count <= bytes.len() && i <= bytes.len() - count
        invariant
            start <= i,
            byte_tick_run(bytes@, start as int, count as nat) == byte_tick_run(
                bytes@,
                i as int,
                count as nat,
            ),
        decreases bytes.len() + 1 - i,
    {
        let mut k: usize = 0;
        let mut all = true;
        while k < count
            invariant
                k <= count,
                i + count <= bytes@.len(),
                bytes@.len() <= usize::MAX,
                all == (forall|q: int| i <= q < i + k ==> bytes@[q] == 96),
            decreases count - k,
        {
            if bytes[i + k] != 96 {
                all = false;
            }
            k += 1;
        }
        if all {
            return Some(i);
        }
        i += 1;
    }
    None
}

/// `![alt](url)` from `start` (just after `![`): the URL and the position
/// after `)`.
fn parse_image(bytes: &[u8], start: usize) -> (r: Option<(String, usize)>)
    ensures
        match byte_link(bytes@, start as int) {
            None => r is None,
            Some((j, k)) => r matches Some((u, e)) && u@ == utf8_lossy(bytes@.subrange(j + 2, k))
                && e == k + 1,
        },
{
    proof {
        lemma_byte_link(bytes@, start as int);
        lemma_byte_find(bytes@, start as int, 93);
    }
    let n = bytes.len();
    let j = match find_closing_single(bytes, start, 93) {
        Some(j) => j,
        None => return None,
    };
    let i = j + 1;
    if i >= n || bytes[i] != 40 {
        return None;
    }
    let url_start = i + 1;
    let k = match find_closing_single(bytes, url_start, 41) {
        Some(k) => k,
        None => return None,
    };
    proof {
        lemma_byte_find(bytes@, url_start as int, 41);
    }
    let url = decode_lossy(vstd::slice::slice_subrange(bytes, url_start, k));
    Some((url, k + 1))
}

/// `[text](url)` from `start` (just after `[`): the position after `)`.
fn parse_link(bytes: &[u8], start: usize) -> (r: Option<usize>)
    ensures
        match byte_link(bytes@, start as int) {
            None => r is None,
            Some((j, k)) => r == Some((k + 1) as usize),
        },
{
    proof {
        lemma_byte_link(bytes@, start as int);
        lemma_byte_find(bytes@, start as int, 93);
    }
    let n = bytes.len();
    let j = match find_closing_single(bytes, start, 93) {
        Some(j) => j,
        None => return None,
    };
    let i = j + 1;
    if i >= n || bytes[i] != 40 {
        return None;
    }
    let k = match find_closing_single(bytes, i + 1, 41) {
        Some(k) => k,
        None => return None,
    };
    proof {
        lemma_byte_find(bytes@, i + 1, 41);
    }
    Some(k + 1)
}

/// The styled byte ranges of the inline markup of `text` (emphasis,
/// strikethrough, code, images, links, math), shifted by `offset`, and the
/// URLs of its images, in order.
pub fn scan_inline(text: &str, offset: usize) -> (r: (Vec<(Range<usize>, SpanKind)>, Vec<String>))
    requires
        offset + blen(text@) <= usize::MAX,
    ensures
        span_views(r.0@) == spans_from(vstd::utf8::encode_utf8(text@), 0, offset as int).0,
        string_views(r.1@) == spans_from(vstd::utf8::encode_utf8(text@), 0, offset as int).1,
{
    scan_inline_bytes(text.as_bytes(), offset)
}

/// [`scan_inline`] over the bytes of a text.
#[verifier::spinoff_prover]
pub fn scan_inline_bytes(bytes: &[u8], offset: usize) -> (r: (Vec<(Range<usize>, SpanKind)>, Vec<String>))
    requires
        offset + bytes@.len() <= usize::MAX,
    ensures
        span_views(r.0@) == spans_from(bytes@, 0, offset as int).0,
        string_views(r.1@) == spans_from(bytes@, 0, offset as int).1,
{
    let ghost b = bytes@;
    let n = bytes.len();
    let mut highlights: Vec<(Range<usize>, SpanKind)> = Vec::new();
    let mut image_urls: Vec<String> = Vec::new();
    let mut i: usize = 0;
    while i < n
        invariant
            n == b.len(),
            b == bytes@,
            i <= n,
            offset + n <= usize::MAX,
            span_views(highlights@) + spans_from(b, i as int, offset as int).0 == spans_from(
                b,
                0,
                offset as int,
            ).0,
            string_views(image_urls@) + spans_from(b, i as int, offset as int).1 == spans_from(
                b,
                0,
                offset as int,
            ).1,
        decreases n - i,
    {
        proof {
            lemma_span_step(b, i as int, offset as int);
        }
        let ghost step = span_step(b, i as int, offset as int);
        let ghost h0 = span_views(highlights@);
        let ghost u0 = string_views(image_urls@);
        let c = bytes[i];
        let mut done = false;
        let mut next = i + 1;
        if (c == 42 || c == 95) && n - i > 1 && bytes[i + 1] == c {
            if let Some(end) = find_closing_double(bytes, i + 2, c) {
                proof {
                    lemma_byte_double(b, i + 2, c);
                }
                highlights.push((offset + i..offset + i + 2, SpanKind::BoldMarker));
                highlights.push((offset + i + 2..offset + end, SpanKind::Bold));
                highlights.push((offset + end..offset + end + 2, SpanKind::BoldMarker));
                next = end + 2;
                done = true;
            }
        }
        if !done && c == 126 && n - i > 1 && bytes[i + 1] == 126 {
            if let Some(end) = find_closing_double(bytes, i + 2, 126) {
                proof {
                    lemma_byte_double(b, i + 2, 126);
                }
                highlights.push((offset + i..offset + i + 2, SpanKind::StrikeMarker));
                highlights.push((offset + i + 2..offset + end, SpanKind::Strike));
                highlights.push((offset + end..offset + end + 2, SpanKind::StrikeMarker));
                next = end + 2;
                done = true;
            }
        }
        if !done && (c == 42 || c == 95) {
            if n - i > 1 && bytes[i + 1] == c {
                next = i + 1;
                done = true;
            } else if let Some(end) = find_closing_single(bytes, i + 1, c) {
                proof {
                    lemma_byte_find(b, i + 1, c);
                }
                highlights.push((offset + i..offset + i + 1, SpanKind::ItalicMarker));
                highlights.push((offset + i + 1..offset + end, SpanKind::Italic));
                highlights.push((offset + end..offset + end + 1, SpanKind::ItalicMarker));
                next = end + 1;
                done = true;
            }
        }
        if !done && c == 96 {
            let count = count_backticks(bytes, i);
            proof {
                lemma_byte_ticks(b, i as int);
            }
            if let Some(end) = find_closing_backticks(bytes, i + count, count) {
                proof {
                    lemma_byte_tick_run(b, i + count, count as nat);
                }
                highlights.push((offset + i..offset + i + count, SpanKind::CodeMarker));
                highlights.push((offset + i + count..offset + end, SpanKind::Code));
                highlights.push((offset + end..offset + end + count, SpanKind::CodeMarker));
                next = end + count;
                done = true;
            }
        }
        if !done && c == 33 && n - i > 1 && bytes[i + 1] == 91 {
            proof {
                lemma_byte_link(b, i + 2);
            }
            if let Some((url, end)) = parse_image(bytes, i + 2) {
                highlights.push((offset + i..offset + end, SpanKind::Image));
                image_urls.push(url);
                next = end;
                done = true;
            }
        }
        if !done && c == 91 {
            proof {
                lemma_byte_link(b, i + 1);
            }
            if let Some(end) = parse_link(bytes, i + 1) {
                highlights.push((offset + i..offset + end, SpanKind::Link));
                next = end;
                done = true;
            }
        }
        if !done && c == 36 {
            if let Some(end) = find_closing_single(bytes, i + 1, 36) {
                proof {
                    lemma_byte_find(b, i + 1, 36);
                }
                highlights.push((offset + i..offset + i + 1, SpanKind::MathMarker));
                highlights.push((offset + i + 1..offset + end, SpanKind::Math));
                highlights.push((offset + end..offset + end + 1, SpanKind::MathMarker));
                next = end + 1;
                done = true;
            }
        }
        proof {
            assert(next == step.2);
            assert(span_views(highlights@) =~= h0 + step.0);
            match step.1 {
                Some(u) => {
                    assert(string_views(image_urls@) =~= u0 + seq![u]);
                },
                None => {
                    assert(string_views(image_urls@) =~= u0);
                },
            }
            let rest = spans_from(b, next as int, offset as int);
            assert(spans_from(b, i as int, offset as int).0 == step.0 + rest.0);
            assert(h0 + (step.0 + rest.0) =~= span_views(highlights@) + rest.0);
            match step.1 {
                Some(u) => {
                    assert(spans_from(b, i as int, offset as int).1 == seq![u] + rest.1);
                    assert(u0 + (seq![u] + rest.1) =~= string_views(image_urls@) + rest.1);
                },
                None => {
                    assert(spans_from(b, i as int, offset as int).1 == rest.1);
                },
            }
        }
        i = next;
    }
    proof {
        assert(span_views(highlights@) =~= span_views(highlights@) + spans_from(b, n as int, offset as int).0);
        assert(string_views(image_urls@) =~= string_views(image_urls@) + spans_from(b, n as int, offset as int).1);
    }
    (highlights, image_urls)
}

/// The ranges and kinds of a list of spans.
pub open spec fn span_views(v: Seq<(Range<usize>, SpanKind)>) -> Seq<(int, int, SpanKind)> {
    Seq::new(v.len(), |k: int| (v[k].0.start as int, v[k].0.end as int, v[k].1))
}



/// How the editor styles a byte range of a line: the line's own block
/// markup, or one of its inline spans.
#[derive(Debug, Clone, Copy, PartialEq, Eq, Structural)]
pub enum LineStyle {
    HeadingMarker,
    HeadingText,
    ListMarker,
    QuoteMarker,
    QuoteText,
    CodeText,
    TableSeparator,
    TablePipe,
    TableCell,
    FenceMarker,
    FenceLabel,
    FenceRest,
    MathDelimiter,
    MathLine,
    Syntax(usize),
    Inline(SpanKind),
}

impl LineStyle {
    /// Whether the style gives the text a colour of its own (table
    /// separators and the tail of a fence line are only faded or shaded).
    pub fn sets_color(&self) -> (b: bool)
        ensures
            b == !(*self is TableSeparator || *self is FenceRest),
    {
        !matches!(self, LineStyle::TableSeparator | LineStyle::FenceRest)
    }

    /// Whether the style shades the background (fences, code and math).
    pub fn sets_background(&self) -> (b: bool)
        ensures
            b == (*self is FenceMarker || *self is FenceLabel || *self is FenceRest || (*self
                matches LineStyle::Inline(k) && (k is CodeMarker || k is Code || k is MathMarker
                || k is Math))),
    {
        match self {
            LineStyle::FenceMarker | LineStyle::FenceLabel | LineStyle::FenceRest => true,
            LineStyle::Inline(k) => matches!(
                k,
                SpanKind::CodeMarker | SpanKind::Code | SpanKind::MathMarker | SpanKind::Math
            ),
            _ => false,
        }
    }

    /// Whether the style underlines the text (links).
    pub fn sets_underline(&self) -> (b: bool)
        ensures
            b == (*self == LineStyle::Inline(SpanKind::Link)),
    {
        matches!(self, LineStyle::Inline(SpanKind::Link))
    }

    /// Whether the style sets a font weight (heading text is bold).
    pub fn sets_font_weight(&self) -> (b: bool)
        ensures
            b == (*self is HeadingText),
    {
        matches!(self, LineStyle::HeadingText)
    }

    /// Whether the style sets a font style (quoted text is italic).
    pub fn sets_font_style(&self) -> (b: bool)
        ensures
            b == (*self is QuoteText),
    {
        matches!(self, LineStyle::QuoteText)
    }
}

/// The height class of an editor line: headings are taller, by level.
#[derive(Debug, Clone, Copy, PartialEq, Eq, Structural)]
pub enum LineHeight {
    Default,
    Heading(u8),
}

/// The styled byte ranges of one editor line, the URLs of its images, its
/// height class, its heading level, and whether it has the code background.
#[derive(Debug, Clone)]
pub struct HighlightedLine {
    pub highlights: Vec<(Range<usize>, LineStyle)>,
    pub image_urls: Vec<String>,
    pub line_height: LineHeight,
    pub heading_level: Option<u8>,
    pub code_background: bool,
}

/// What a highlighted line shows, as a value.
#[verifier::ext_equal]
pub struct LineView {
    pub spans: Seq<(int, int, LineStyle)>,
    pub urls: Seq<Seq<char>>,
    pub height: LineHeight,
    pub heading_level: Option<u8>,
    pub code_background: bool,
}

impl HighlightedLine {
    pub open spec fn view(&self) -> LineView {
        LineView {
            spans: styled_views(self.highlights@),
            urls: string_views(self.image_urls@),
            height: self.line_height,
            heading_level: self.heading_level,
            code_background: self.code_background,
        }
    }
}

/// The ranges and styles of a list of styled ranges.
pub open spec fn styled_views(v: Seq<(Range<usize>, LineStyle)>) -> Seq<(int, int, LineStyle)> {
    Seq::new(v.len(), |k: int| (v[k].0.start as int, v[k].0.end as int, v[k].1))
}

/// Inline spans as line styles.
pub open spec fn inline_styles(s: Seq<(int, int, SpanKind)>) -> Seq<(int, int, LineStyle)> {
    Seq::new(s.len(), |k: int| (s[k].0, s[k].1, LineStyle::Inline(s[k].2)))
}

/// Byte length of a character sequence, one character at a time.
fn byte_len_of(s: &[char]) -> (r: usize)
    requires
        blen(s@) <= usize::MAX,
    ensures
        r == blen(s@),
{
    let mut t: usize = 0;
    let mut k: usize = 0;
    while k < s.len()
        invariant
            k <= s@.len(),
            blen(s@) <= usize::MAX,
            t == blen(s@.take(k as int)),
        decreases s@.len() - k,
    {
        let c = s[k];
        proof {
            lemma_blen_mono(s@, k as int + 1, s@.len() as int);
            assert(s@.take(k as int + 1) =~= s@.take(k as int) + seq![c]);
            lemma_blen_concat(s@.take(k as int), seq![c]);
            lemma_blen_single(c);
        }
        t += char_utf8_len(c);
        k += 1;
    }
    proof {
        assert(s@.take(s@.len() as int) =~= s@);
    }
    t
}

/// End of the table cell that starts at character `i`: the next `|`, or
/// the end of the line.
pub open spec fn cell_end(l: Seq<char>, i: int) -> int {
    match find_char(l, i, '|') {
        Some(k) => k,
        None => l.len() as int,
    }
}

/// The styled range of a table cell that starts at byte `bi`: none for a
/// blank cell, else from the byte after its leading whitespace to its end
/// less the length of the cell without its trailing whitespace.
pub open spec fn cell_spans(cell: Seq<char>, bi: int) -> Seq<(int, int, LineStyle)> {
    if skip_ws_from(cell, 0) < cell.len() {
        seq![
            (
                bi + blen(cell) - blen(trim_start(cell)),
                bi + blen(cell) - blen(trim_end(cell)),
                LineStyle::TableCell,
            ),
        ]
    } else {
        seq![]
    }
}

/// The styled ranges of a table row from character `i` (at byte `bi`) on:
/// each `|`, and each cell between them.
pub open spec fn table_spans(l: Seq<char>, i: int, bi: int) -> Seq<(int, int, LineStyle)>
    decreases l.len() - i,
{
    if i < 0 || i >= l.len() {
        seq![]
    } else if l[i] == '|' {
        seq![(bi, bi + 1, LineStyle::TablePipe)] + table_spans(l, i + 1, bi + 1)
    } else {
        proof {
            lemma_find_char(l, i + 1, '|');
        }
        let j = cell_end(l, i + 1);
        let cell = l.subrange(i, j);
        cell_spans(cell, bi) + table_spans(l, j, bi + blen(cell))
    }
}

/// Appends the styled range of one table cell.
fn push_cell_span(cell: &[char], bi: usize, r: &mut Vec<(Range<usize>, LineStyle)>)
    requires
        bi + blen(cell@) <= usize::MAX,
    ensures
        styled_views(final(r)@) == styled_views(old(r)@) + cell_spans(cell@, bi as int),
{
    let ghost r0 = styled_views(r@);
    let a = ws_prefix_len(cell);
    proof {
        lemma_skip_ws_bounds(cell@, 0);
    }
    if a < cell.len() {
        let e = trimmed_end(cell);
        proof {
            lemma_back_ws_bounds(cell@, cell@.len() as int);
            assert(cell@ =~= cell@.take(a as int) + trim_start(cell@));
            lemma_blen_concat(cell@.take(a as int), trim_start(cell@));
            lemma_blen_mono(cell@, e as int, cell@.len() as int);
            assert(cell@.subrange(0, a as int) =~= cell@.take(a as int));
            assert(cell@.subrange(0, e as int) =~= trim_end(cell@));
        }
        let cb = byte_len_of(cell);
        let ba = byte_len_of(vstd::slice::slice_subrange(cell, 0, a));
        let be = byte_len_of(vstd::slice::slice_subrange(cell, 0, e));
        r.push((bi + ba..bi + cb - be, LineStyle::TableCell));
        proof {
            assert(styled_views(r@) =~= r0 + cell_spans(cell@, bi as int));
        }
    } else {
        proof {
            assert(styled_views(r@) =~= r0 + cell_spans(cell@, bi as int));
        }
    }
}

/// The styled ranges of the pipes and cells of a table row.
#[verifier::spinoff_prover]
fn table_row_spans(l: &[char]) -> (r: Vec<(Range<usize>, LineStyle)>)
    requires
        blen(l@) <= usize::MAX,
    ensures
        styled_views(r@) == table_spans(l@, 0, 0),
{
    let n = l.len();
    let mut r: Vec<(Range<usize>, LineStyle)> = Vec::new();
    let mut i: usize = 0;
    let mut bi: usize = 0;
    while i < n
        invariant
            n == l@.len(),
            i <= n,
            blen(l@) <= usize::MAX,
            bi == blen(l@.take(i as int)),
            styled_views(r@) + table_spans(l@, i as int, bi as int) == table_spans(l@, 0, 0),
        decreases n - i,
    {
        let ghost r0 = styled_views(r@);
        proof {
            lemma_blen_mono(l@, i as int, n as int);
        }
        if l[i] == '|' {
            proof {
                lemma_blen_mono(l@, i as int + 1, n as int);
                assert(l@.take(i as int + 1) =~= l@.take(i as int) + seq!['|']);
                lemma_blen_concat(l@.take(i as int), seq!['|']);
                lemma_blen_single('|');
            }
            r.push((bi..bi + 1, LineStyle::TablePipe));
            proof {
                assert(styled_views(r@) =~= r0 + seq![(bi as int, bi + 1, LineStyle::TablePipe)]);
                assert(styled_views(r@) + table_spans(l@, i + 1, bi + 1) =~= r0 + table_spans(
                    l@,
                    i as int,
                    bi as int,
                ));
            }
            i += 1;
            bi += 1;
        } else {
            proof {
                lemma_find_char(l@, i + 1, '|');
            }
            let j = match crate::markdown::inline::find_closing_single(l, i + 1, '|') {
                Some(k) => k,
                None => n,
            };
            let cell = vstd::slice::slice_subrange(l, i, j);
            proof {
                lemma_blen_mono(l@, i as int, j as int);
                lemma_blen_mono(l@, j as int, n as int);
            }
            let bj = bi + byte_len_of(cell);
            push_cell_span(cell, bi, &mut r);
            proof {
                assert(table_spans(l@, i as int, bi as int) == cell_spans(cell@, bi as int)
                    + table_spans(l@, j as int, bj as int));
                assert(styled_views(r@) + table_spans(l@, j as int, bj as int) =~= r0
                    + table_spans(l@, i as int, bi as int));
                assert(l@.take(j as int) =~= l@.take(i as int) + cell@);
                lemma_blen_concat(l@.take(i as int), cell@);
            }
            i = j;
            bi = bj;
        }
    }
    proof {
        assert(styled_views(r@) + table_spans(l@, n as int, bi as int) =~= styled_views(r@));
    }
    r
}


/// The styled ranges of a fence line: its backticks, the language label
/// (trimmed) and what follows it, or, with no label, everything after the
/// backticks.
pub open spec fn fence_spans(l: Seq<char>) -> Seq<(int, int, LineStyle)> {
    let n = blen(l) as int;
    let bc = run_len(l, 0, '`') as int;
    let rest = l.skip(bc);
    let marker = if bc > 0 {
        seq![(0, bc, LineStyle::FenceMarker)]
    } else {
        seq![]
    };
    if skip_ws_from(rest, 0) < rest.len() {
        let ls = bc + blen(rest) - blen(trim_start(rest));
        let le = ls + blen(trim(rest));
        marker + seq![(ls, le, LineStyle::FenceLabel)] + if le < n {
            seq![(le, n, LineStyle::FenceRest)]
        } else {
            seq![]
        }
    } else if bc < n {
        marker + seq![(bc, n, LineStyle::FenceRest)]
    } else {
        marker
    }
}

/// Highlights the opening or closing line of a fenced code block.
#[verifier::spinoff_prover]
pub fn highlight_fence_line(line: &str) -> (r: HighlightedLine)
    ensures
        styled_views(r.highlights@) == fence_spans(line@),
        r.image_urls@.len() == 0,
        r.line_height == LineHeight::Default,
        r.heading_level is None,
        r.code_background,
{
    let chars = chars_of(line);
    let l = chars.as_slice();
    let n = line.as_bytes().len();
    let bc = run_length(l, 0, '`');
    let ghost rest_v = l@.skip(bc as int);
    proof {
        lemma_run_len(l@, 0, '`');
        lemma_blen_ascii_run(l@.take(bc as int), '`');
        assert(l@ =~= l@.take(bc as int) + rest_v);
        lemma_blen_concat(l@.take(bc as int), rest_v);
    }
    let rest = vstd::slice::slice_subrange(l, bc, l.len());
    let mut highlights: Vec<(Range<usize>, LineStyle)> = Vec::new();
    if bc > 0 {
        highlights.push((0..bc, LineStyle::FenceMarker));
    }
    let ghost h0 = styled_views(highlights@);
    let a = ws_prefix_len(rest);
    proof {
        lemma_skip_ws_bounds(rest@, 0);
    }
    if a < rest.len() {
        let ghost ts = trim_start(rest@);
        proof {
            assert(rest@ =~= rest@.take(a as int) + ts);
            lemma_blen_concat(rest@.take(a as int), ts);
            lemma_back_ws_bounds(ts, ts.len() as int);
            lemma_blen_mono(ts, back_ws_from(ts, ts.len() as int), ts.len() as int);
            assert(rest@.subrange(0, a as int) =~= rest@.take(a as int));
        }
        let lead = byte_len_of(vstd::slice::slice_subrange(rest, 0, a));
        let t = trim_chars(rest);
        let tl = byte_len_of(t.as_slice());
        let ls = bc + lead;
        let le = ls + tl;
        highlights.push((ls..le, LineStyle::FenceLabel));
        if le < n {
            highlights.push((le..n, LineStyle::FenceRest));
        }
        proof {
            let tail = if le < n {
                seq![(le as int, n as int, LineStyle::FenceRest)]
            } else {
                seq![]
            };
            assert(styled_views(highlights@) =~= h0 + seq![(ls as int, le as int, LineStyle::FenceLabel)] + tail);
        }
    } else if bc < n {
        highlights.push((bc..n, LineStyle::FenceRest));
        proof {
            assert(styled_views(highlights@) =~= h0 + seq![(bc as int, n as int, LineStyle::FenceRest)]);
        }
    }
    proof {
        if bc > 0 {
            assert(h0 =~= seq![(0int, bc as int, LineStyle::FenceMarker)]);
        } else {
            assert(h0 =~= Seq::<(int, int, LineStyle)>::empty());
        }
    }
    HighlightedLine {
        highlights,
        image_urls: Vec::new(),
        line_height: LineHeight::Default,
        heading_level: None,
        code_background: true,
    }
}


/// The inline spans and image URLs of the bytes from `skip` on, at their
/// place in the line.
pub open spec fn inline_from(b: Seq<u8>, skip: int) -> (Seq<(int, int, SpanKind)>, Seq<Seq<char>>) {
    spans_from(b.subrange(skip, b.len() as int), 0, skip)
}

/// The first `h` bytes are all `#`.
pub open spec fn hashes_before(b: Seq<u8>, h: int) -> bool {
    h <= b.len() && forall|k: int| 0 <= k < h ==> b[k] == 35
}

/// Where the text of a heading starts: after its `#`s and one space.
pub open spec fn heading_rest(b: Seq<u8>, h: int) -> int {
    if b.len() > h && b[h] == 32 {
        h + 1
    } else {
        h
    }
}

/// Length of the marker of a quote line: `> `, `>`, or nothing.
pub open spec fn quote_skip(b: Seq<u8>) -> int {
    if b.len() > 0 && b[0] == 62 {
        if b.len() > 1 && b[1] == 32 {
            2
        } else {
            1
        }
    } else {
        0
    }
}

/// Length of a list marker, cut at the end of the line.
pub open spec fn list_skip(m: nat, n: int) -> int {
    if m < n {
        m as int
    } else {
        n
    }
}

/// The ranges styled by the block markup of a line, before its inline spans.
pub open spec fn block_spans(l: Seq<char>, ctx: ContextModel) -> Seq<(int, int, LineStyle)> {
    let b = encode_utf8(l);
    let n = b.len() as int;
    let all = if n > 1 {
        n
    } else {
        1
    };
    match ctx {
        ContextModel::Heading(level) => if hashes_before(b, level as int) {
            let rs = heading_rest(b, level as int);
            seq![(0, level as int, LineStyle::HeadingMarker)] + if rs < n {
                seq![(rs, n, LineStyle::HeadingText)]
            } else {
                seq![]
            }
        } else {
            seq![]
        },
        ContextModel::ListItem(m) => if list_skip(m, n) > 0 {
            seq![(0, list_skip(m, n), LineStyle::ListMarker)]
        } else {
            seq![]
        },
        ContextModel::BlockQuote => {
            let q = quote_skip(b);
            if q > 0 {
                seq![(0, q, LineStyle::QuoteMarker)] + if q < n {
                    seq![(q, n, LineStyle::QuoteText)]
                } else {
                    seq![]
                }
            } else {
                seq![]
            }
        },
        ContextModel::CodeBlock(_) => seq![(0, all, LineStyle::CodeText)],
        ContextModel::TableSeparator => seq![(0, all, LineStyle::TableSeparator)],
        ContextModel::TableRow => table_spans(l, 0, 0),
        ContextModel::Normal => seq![],
    }
}

/// Where the inline scan of a line starts, if the line gets one.
pub open spec fn inline_start(l: Seq<char>, ctx: ContextModel) -> Option<int> {
    let b = encode_utf8(l);
    match ctx {
        ContextModel::Heading(level) => if hashes_before(b, level as int) {
            Some(heading_rest(b, level as int))
        } else {
            Some(0)
        },
        ContextModel::ListItem(m) => Some(list_skip(m, b.len() as int)),
        ContextModel::BlockQuote => Some(quote_skip(b)),
        ContextModel::CodeBlock(_) => None,
        ContextModel::TableSeparator => None,
        ContextModel::TableRow => Some(0),
        ContextModel::Normal => Some(0),
    }
}

/// All styled ranges of a line: its block markup, then its inline spans.
pub open spec fn line_spans(l: Seq<char>, ctx: ContextModel) -> Seq<(int, int, LineStyle)> {
    block_spans(l, ctx) + match inline_start(l, ctx) {
        Some(s) => inline_styles(inline_from(encode_utf8(l), s).0),
        None => seq![],
    }
}

/// The image URLs of a line.
pub open spec fn line_urls(l: Seq<char>, ctx: ContextModel) -> Seq<Seq<char>> {
    match inline_start(l, ctx) {
        Some(s) => inline_from(encode_utf8(l), s).1,
        None => seq![],
    }
}

/// The heading level a line is shown with: that of a heading line whose
/// marker is all `#`.
pub open spec fn line_heading(l: Seq<char>, ctx: ContextModel) -> Option<u8> {
    match ctx {
        ContextModel::Heading(level) => if hashes_before(encode_utf8(l), level as int) {
            Some(level)
        } else {
            None
        },
        _ => None,
    }
}

/// The height class of a line in a context.
pub open spec fn line_height_of(ctx: ContextModel) -> LineHeight {
    match ctx {
        ContextModel::Heading(level) => LineHeight::Heading(level),
        _ => LineHeight::Default,
    }
}

/// What [`highlight_line`] shows for a line in a context.
pub open spec fn line_view(l: Seq<char>, ctx: ContextModel) -> LineView {
    LineView {
        spans: line_spans(l, ctx),
        urls: line_urls(l, ctx),
        height: line_height_of(ctx),
        heading_level: line_heading(l, ctx),
        code_background: ctx is CodeBlock,
    }
}

/// The byte where a heading's marker or a list item's marker ends falls on
/// a character boundary (or past the end of the line).
pub open spec fn markers_on_boundary(l: Seq<char>, ctx: ContextModel) -> bool {
    match ctx {
        ContextModel::Heading(level) => level > blen(l) || is_boundary(l, level as int),
        ContextModel::ListItem(m) => m >= blen(l) || is_boundary(l, m as int),
        _ => true,
    }
}

/// The contexts found by [`detect_line_context`] end their markers on a
/// character boundary, so every line can be highlighted in the context
/// detected for it.
pub proof fn lemma_context_markers(l: Seq<char>)
    ensures
        markers_on_boundary(l, line_context(l, false)),
{
    let lv = hash_level(l);
    if l.len() > 0 && l[0] == '#' && (lv == l.len() || l[lv as int] == ' ') {
        lemma_run_len(l, 0, '#');
        lemma_ascii_prefix_boundary(l, lv as int);
    } else if l.len() > 0 && l[0] == '|' {
    } else if l.len() >= 2 && (l[0] == '-' || l[0] == '*' || l[0] == '+') && l[1] == ' ' {
        lemma_ascii_prefix_boundary(l, 2);
    } else if find_pair(l, 0, '.', ' ') is Some && find_pair(l, 0, '.', ' ')->0 > 0
        && all_ascii_digits(l.take(find_pair(l, 0, '.', ' ')->0)) {
        let k = find_pair(l, 0, '.', ' ')->0;
        lemma_find_pair(l, 0, '.', ' ');
        assert forall|q: int| 0 <= q < k + 2 implies (l[q] as u32) < 0x80 by {
            if q < k {
                assert(l.take(k)[q] == l[q]);
            }
        }
        lemma_ascii_prefix_boundary(l, k + 2);
    }
}

/// A styled range lies within the line and starts and ends between
/// characters.
pub open spec fn span_in_line(l: Seq<char>, r: (int, int, LineStyle)) -> bool {
    &&& 0 <= r.0 <= r.1 <= blen(l)
    &&& is_boundary(l, r.0)
    &&& is_boundary(l, r.1)
}

proof fn lemma_block_spans_in_line(l: Seq<char>)
    requires
        !(line_context(l, false) is TableRow),
    ensures
        forall|k: int|
            0 <= k < block_spans(l, line_context(l, false)).len() ==> span_in_line(
                l,
                #[trigger] block_spans(l, line_context(l, false))[k],
            ),
        inline_start(l, line_context(l, false)) matches Some(st) ==> 0 <= st <= blen(l),
{
    let ctx = line_context(l, false);
    let b = encode_utf8(l);
    let n = b.len() as int;
    lemma_context_markers(l);
    crate::utf8len::lemma_boundary_ends(l, 0);
    assert(l.subrange(0, l.len() as int) =~= l);
    assert(is_boundary(l, n));
    assert(is_boundary(l, 0));
    let sp = block_spans(l, ctx);
    match ctx {
        ContextModel::Heading(level) => {
            if hashes_before(b, level as int) {
                let rs = heading_rest(b, level as int);
                if level > 0 {
                    assert(b[level - 1] == 35);
                    lemma_edge_boundary(l, level as int);
                }
                if rs > level {
                    lemma_edge_boundary(l, rs);
                }
                assert forall|k: int| 0 <= k < sp.len() implies span_in_line(l, #[trigger] sp[k]) by {}
            }
        },
        ContextModel::ListItem(m) => {},
        ContextModel::BlockQuote => {
            let q = quote_skip(b);
            if q > 0 {
                assert(b[q - 1] < 0x80);
                lemma_edge_boundary(l, q);
                assert forall|k: int| 0 <= k < sp.len() implies span_in_line(l, #[trigger] sp[k]) by {}
            }
        },
        ContextModel::TableSeparator => {
            crate::utf8len::lemma_blen_empty(l);
        },
        _ => {},
    }
}

/// Every range that [`highlight_line`] styles in a line, in the context
/// detected for that line outside code blocks, lies within the line and
/// starts and ends between characters, so that the line can be cut at
/// its ends. Table rows are left out: a cell whose trailing whitespace is
/// shorter than its leading whitespace gets a range that ends before it
/// starts.
pub proof fn law_line_spans_in_line(l: Seq<char>)
    requires
        !(line_context(l, false) is TableRow),
    ensures
        forall|k: int|
            0 <= k < line_spans(l, line_context(l, false)).len() ==> span_in_line(
                l,
                #[trigger] line_spans(l, line_context(l, false))[k],
            ),
{
    let ctx = line_context(l, false);
    lemma_block_spans_in_line(l);
    let bs = block_spans(l, ctx);
    let all = line_spans(l, ctx);
    match inline_start(l, ctx) {
        Some(st) => {
            law_inline_spans_in_line(l, st);
            let is = inline_styles(inline_from(encode_utf8(l), st).0);
            assert(all == bs + is);
            assert forall|k: int| 0 <= k < all.len() implies span_in_line(l, #[trigger] all[k]) by {
                if k < bs.len() {
                    assert(all[k] == bs[k]);
                } else {
                    assert(all[k] == is[k - bs.len()]);
                    let r = inline_from(encode_utf8(l), st).0[k - bs.len()];
                    assert(is[k - bs.len()] == (r.0, r.1, LineStyle::Inline(r.2)));
                }
            }
        },
        None => {
            assert(all =~= bs);
        },
    }
}

/// Appends the inline spans of the bytes from `skip` on and returns the
/// URLs of their images.
fn push_inline(bytes: &[u8], skip: usize, hl: &mut Vec<(Range<usize>, LineStyle)>) -> (urls: Vec<String>)
    requires
        skip <= bytes@.len(),
    ensures
        styled_views(final(hl)@) == styled_views(old(hl)@) + inline_styles(
            inline_from(bytes@, skip as int).0,
        ),
        string_views(urls@) == inline_from(bytes@, skip as int).1,
{
    let n = bytes.len();
    let sub = vstd::slice::slice_subrange(bytes, skip, n);
    let (spans, urls) = scan_inline_bytes(sub, skip);
    let ghost h0 = styled_views(hl@);
    let ghost sv = span_views(spans@);
    let mut k: usize = 0;
    while k < spans.len()
        invariant
            k <= spans@.len(),
            sv == span_views(spans@),
            styled_views(hl@) == h0 + inline_styles(sv.take(k as int)),
        decreases spans@.len() - k,
    {
        let ghost before = styled_views(hl@);
        let start = spans[k].0.start;
        let end = spans[k].0.end;
        let kind = spans[k].1;
        hl.push((start..end, LineStyle::Inline(kind)));
        proof {
            assert(inline_styles(sv.take(k as int + 1)) =~= inline_styles(sv.take(k as int))
                + seq![(start as int, end as int, LineStyle::Inline(kind))]);
            assert(styled_views(hl@) =~= before + seq![
                (start as int, end as int, LineStyle::Inline(kind)),
            ]);
        }
        k += 1;
    }
    proof {
        assert(sv.take(sv.len() as int) =~= sv);
    }
    urls
}

/// Highlights one line of the editor in its Markdown context: the ranges
/// styled by its block markup and by its inline markup, the URLs of its
/// images, its height class, its heading level and its background.
#[verifier::spinoff_prover]
pub fn highlight_line(line: &str, context: &BlockContext) -> (r: HighlightedLine)
    requires
        markers_on_boundary(line@, context@),
    ensures
        styled_views(r.highlights@) == line_spans(line@, context@),
        string_views(r.image_urls@) == line_urls(line@, context@),
        r.line_height == line_height_of(context@),
        r.heading_level == line_heading(line@, context@),
        r.code_background == (context@ is CodeBlock),
{
    let bytes = line.as_bytes();
    let n = bytes.len();
    let ghost b = bytes@;
    let mut highlights: Vec<(Range<usize>, LineStyle)> = Vec::new();
    match context {
        BlockContext::Heading { level } => {
            let h = *level as usize;
            let mut hashes = h <= n;
            let mut k: usize = 0;
            while hashes && k < h
                invariant
                    k <= h,
                    h == *level as int,
                    n == b.len(),
                    b == bytes@,
                    hashes ==> h <= n && forall|q: int| 0 <= q < k ==> b[q] == 35,
                    !hashes ==> !hashes_before(b, h as int),
                decreases h - k,
            {
                if bytes[k] != 35 {
                    hashes = false;
                }
                k += 1;
            }
            if hashes {
                highlights.push((0..h, LineStyle::HeadingMarker));
                let rs = if n > h && bytes[h] == 32 {
                    h + 1
                } else {
                    h
                };
                if rs < n {
                    highlights.push((rs..n, LineStyle::HeadingText));
                }
                proof {
                    let tail = if rs < n {
                        seq![(rs as int, n as int, LineStyle::HeadingText)]
                    } else {
                        seq![]
                    };
                    assert(styled_views(highlights@) =~= seq![
                        (0int, h as int, LineStyle::HeadingMarker),
                    ] + tail);
                }
                let image_urls = push_inline(bytes, rs, &mut highlights);
                return HighlightedLine {
                    highlights,
                    image_urls,
                    line_height: LineHeight::Heading(*level),
                    heading_level: Some(*level),
                    code_background: false,
                };
            }
            proof {
                assert(styled_views(highlights@) =~= Seq::<(int, int, LineStyle)>::empty());
            }
            let image_urls = push_inline(bytes, 0, &mut highlights);
            HighlightedLine {
                highlights,
                image_urls,
                line_height: LineHeight::Heading(*level),
                heading_level: None,
                code_background: false,
            }
        },
        BlockContext::ListItem { marker_len } => {
            let ml = if *marker_len < n {
                *marker_len
            } else {
                n
            };
            if ml > 0 {
                highlights.push((0..ml, LineStyle::ListMarker));
            }
            proof {
                if ml > 0 {
                    assert(styled_views(highlights@) =~= seq![
                        (0int, ml as int, LineStyle::ListMarker),
                    ]);
                } else {
                    assert(styled_views(highlights@) =~= Seq::<(int, int, LineStyle)>::empty());
                }
            }
            let image_urls = push_inline(bytes, ml, &mut highlights);
            HighlightedLine {
                highlights,
                image_urls,
                line_height: LineHeight::Default,
                heading_level: None,
                code_background: false,
            }
        },
        BlockContext::BlockQuote => {
            let q: usize = if n > 0 && bytes[0] == 62 {
                if n > 1 && bytes[1] == 32 {
                    2
                } else {
                    1
                }
            } else {
                0
            };
            if q > 0 {
                highlights.push((0..q, LineStyle::QuoteMarker));
                if q < n {
                    highlights.push((q..n, LineStyle::QuoteText));
                }
            }
            proof {
                if q > 0 {
                    let tail = if q < n {
                        seq![(q as int, n as int, LineStyle::QuoteText)]
                    } else {
                        seq![]
                    };
                    assert(styled_views(highlights@) =~= seq![
                        (0int, q as int, LineStyle::QuoteMarker),
                    ] + tail);
                } else {
                    assert(styled_views(highlights@) =~= Seq::<(int, int, LineStyle)>::empty());
                }
            }
            let image_urls = push_inline(bytes, q, &mut highlights);
            HighlightedLine {
                highlights,
                image_urls,
                line_height: LineHeight::Default,
                heading_level: None,
                code_background: false,
            }
        },
        BlockContext::CodeBlock { .. } => {
            let all = if n > 1 {
                n
            } else {
                1
            };
            highlights.push((0..all, LineStyle::CodeText));
            proof {
                assert(styled_views(highlights@) =~= seq![(0int, all as int, LineStyle::CodeText)]);
            }
            HighlightedLine {
                highlights,
                image_urls: Vec::new(),
                line_height: LineHeight::Default,
                heading_level: None,
                code_background: true,
            }
        },
        BlockContext::TableSeparator => {
            let all = if n > 1 {
                n
            } else {
                1
            };
            highlights.push((0..all, LineStyle::TableSeparator));
            proof {
                assert(styled_views(highlights@) =~= seq![
                    (0int, all as int, LineStyle::TableSeparator),
                ]);
            }
            HighlightedLine {
                highlights,
                image_urls: Vec::new(),
                line_height: LineHeight::Default,
                heading_level: None,
                code_background: false,
            }
        },
        BlockContext::TableRow => {
            let chars = chars_of(line);
            let mut highlights = table_row_spans(chars.as_slice());
            let image_urls = push_inline(bytes, 0, &mut highlights);
            HighlightedLine {
                highlights,
                image_urls,
                line_height: LineHeight::Default,
                heading_level: None,
                code_background: false,
            }
        },
        BlockContext::Normal => {
            proof {
                assert(styled_views(highlights@) =~= Seq::<(int, int, LineStyle)>::empty());
            }
            let image_urls = push_inline(bytes, 0, &mut highlights);
            HighlightedLine {
                highlights,
                image_urls,
                line_height: LineHeight::Default,
                heading_level: None,
                code_background: false,
            }
        },
    }
}

} // verus!

verus! {

/// Outside a code block, a line that starts with a bullet `- `, `* ` or
/// `+ ` is a list item whose marker is those two characters, whichever of
/// the three bullets it uses; inside a code block every line is code.
pub proof fn law_bullet_lines(l: Seq<char>)
    ensures
        l.len() >= 2 && (l[0] == '-' || l[0] == '*' || l[0] == '+') && l[1] == ' ' ==> line_context(
            l,
            false,
        ) == ContextModel::ListItem(2),
        line_context(l, true) == ContextModel::CodeBlock(None),
{
}

/// Outside a code block, one to six `#` followed by a space or the end of
/// the line make a heading of that level; a line starting with `>` is a
/// quote; a line starting with `|` is a table row or separator.
pub proof fn law_marker_lines(l: Seq<char>, k: nat)
    ensures
        1 <= k <= 6 && k <= l.len() && (forall|q: int| 0 <= q < k ==> l[q] == '#') && (k == l.len()
            || l[k as int] == ' ') ==> line_context(l, false) == ContextModel::Heading(k as u8),
        l.len() > 0 && l[0] == '>' ==> line_context(l, false) == ContextModel::BlockQuote,
        l.len() > 0 && l[0] == '|' ==> line_context(l, false) == ContextModel::TableRow
            || line_context(l, false) == ContextModel::TableSeparator,
{
    if 1 <= k <= 6 && k <= l.len() && (forall|q: int| 0 <= q < k ==> l[q] == '#') && (k == l.len()
        || l[k as int] == ' ') {
        crate::markdown::block::lemma_run_len(l, 0, '#');
        lemma_run_len_exact(l, 0, k as int);
    }
    if l.len() > 0 && l[0] == '>' {
        lemma_find_pair(l, 0, '.', ' ');
        if let Some(p) = find_pair(l, 0, '.', ' ') {
            if p > 0 {
                assert(l.take(p)[0] == '>');
                assert(!all_ascii_digits(l.take(p)));
            }
        }
    }
}

proof fn lemma_run_len_exact(l: Seq<char>, i: int, e: int)
    requires
        0 <= i <= e <= l.len(),
        forall|q: int| i <= q < e ==> l[q] == '#',
        e == l.len() || l[e] != '#',
    ensures
        run_len(l, i, '#') == e - i,
    decreases e - i,
{
    if i < e {
        lemma_run_len_exact(l, i + 1, e);
    }
}

} // verus!

verus! {

proof fn lemma_ascii_byte(c: char)
    requires
        (c as u32) < 0x80,
    ensures
        vstd::utf8::encode_scalar(c as u32) == seq![c as u8],
{
    let v = c as u32;
    assert(v < 0x80 ==> (v & 0x7F) as u8 == v as u8) by (bit_vector);
    assert(vstd::utf8::encode_scalar(v) =~= seq![(v & 0x7F) as u8]);
}

/// The encoding of ASCII characters followed by any text starts with
/// those characters' codes.
proof fn lemma_encode_ascii_prefix(a: Seq<char>, r: Seq<char>)
    requires
        forall|q: int| 0 <= q < a.len() ==> (#[trigger] a[q] as u32) < 0x80,
    ensures
        encode_utf8(a + r).len() == a.len() + encode_utf8(r).len(),
        forall|q: int| 0 <= q < a.len() ==> #[trigger] encode_utf8(a + r)[q] == a[q] as u8,
    decreases a.len(),
{
    if a.len() > 0 {
        let a2 = a.drop_first();
        assert forall|q: int| 0 <= q < a2.len() implies (#[trigger] a2[q] as u32) < 0x80 by {
            assert(a2[q] == a[q + 1]);
        }
        lemma_encode_ascii_prefix(a2, r);
        assert((a + r).drop_first() =~= a2 + r);
        assert((a + r)[0] == a[0]);
        lemma_ascii_byte(a[0]);
        assert(encode_utf8(a + r) == seq![a[0] as u8] + encode_utf8(a2 + r));
        assert forall|q: int| 0 <= q < a.len() implies #[trigger] encode_utf8(a + r)[q] == a[q] as u8 by {
            if q > 0 {
                assert(encode_utf8(a + r)[q] == encode_utf8(a2 + r)[q - 1]);
                assert(a2[q - 1] == a[q]);
            }
        }
    }
}

/// A heading line — `k` `#`, a space and some text — shown as a heading
/// of level `k` styles exactly its `#` marker as the marker and everything
/// after the space as the heading text; its inline spans follow.
pub proof fn law_heading_spans(k: nat, t: Seq<char>)
    requires
        1 <= k <= 6,
        t.len() > 0,
    ensures
        ({
            let l = Seq::new(k, |q: int| '#') + seq![' '] + t;
            line_spans(l, ContextModel::Heading(k as u8)).take(2) == seq![
                (0int, k as int, LineStyle::HeadingMarker),
                (k as int + 1, blen(l) as int, LineStyle::HeadingText),
            ]
        }),
{
    let a = Seq::new(k, |q: int| '#') + seq![' '];
    let l = a + t;
    assert(Seq::new(k, |q: int| '#') + seq![' '] + t == l);
    assert forall|q: int| 0 <= q < a.len() implies (#[trigger] a[q] as u32) < 0x80 by {}
    lemma_encode_ascii_prefix(a, t);
    crate::utf8len::lemma_blen_empty(t);
    let b = encode_utf8(l);
    assert forall|q: int| 0 <= q < k implies b[q] == 35 by {
        assert(b[q] == a[q] as u8);
    }
    assert(b[k as int] == a[k as int] as u8);
    assert(hashes_before(b, k as int));
    assert(heading_rest(b, k as int) == k + 1);
    let bs = block_spans(l, ContextModel::Heading(k as u8));
    assert(bs =~= seq![
        (0int, k as int, LineStyle::HeadingMarker),
        (k as int + 1, b.len() as int, LineStyle::HeadingText),
    ]);
    assert(line_spans(l, ContextModel::Heading(k as u8)).take(2) =~= bs);
}

/// A quote line — `> ` and some text — styles exactly its `> ` as the
/// quote marker and the rest of the line as quote text; its inline spans
/// follow.
pub proof fn law_quote_spans(t: Seq<char>)
    requires
        t.len() > 0,
    ensures
        ({
            let l = seq!['>', ' '] + t;
            line_spans(l, ContextModel::BlockQuote).take(2) == seq![
                (0int, 2int, LineStyle::QuoteMarker),
                (2int, blen(l) as int, LineStyle::QuoteText),
            ]
        }),
{
    let a = seq!['>', ' '];
    let l = a + t;
    assert forall|q: int| 0 <= q < a.len() implies (#[trigger] a[q] as u32) < 0x80 by {}
    lemma_encode_ascii_prefix(a, t);
    crate::utf8len::lemma_blen_empty(t);
    let b = encode_utf8(l);
    assert(b[0] == a[0] as u8);
    assert(b[1] == a[1] as u8);
    assert(quote_skip(b) == 2);
    let bs = block_spans(l, ContextModel::BlockQuote);
    assert(bs =~= seq![(0int, 2int, LineStyle::QuoteMarker), (2int, b.len() as int, LineStyle::QuoteText)]);
    assert(line_spans(l, ContextModel::BlockQuote).take(2) =~= bs);
}

/// A bullet list line — `- `, `* ` or `+ ` and some text — in its list
/// context styles exactly the two marker bytes as the list marker.
pub proof fn law_bullet_spans(m: char, t: Seq<char>)
    requires
        m == '-' || m == '*' || m == '+',
    ensures
        line_spans(seq![m, ' '] + t, ContextModel::ListItem(2)).take(1) == seq![
            (0int, 2int, LineStyle::ListMarker),
        ],
{
    let a = seq![m, ' '];
    let l = a + t;
    assert forall|q: int| 0 <= q < a.len() implies (#[trigger] a[q] as u32) < 0x80 by {}
    lemma_encode_ascii_prefix(a, t);
    let bs = block_spans(l, ContextModel::ListItem(2));
    assert(bs =~= seq![(0int, 2int, LineStyle::ListMarker)]);
    assert(line_spans(l, ContextModel::ListItem(2)).take(1) =~= bs);
}

} // verus!

verus! {

proof fn lemma_byte_double_at(b: Seq<u8>, i: int, e: int, m: u8)
    requires
        0 <= i <= e,
        e + 1 < b.len(),
        b[e] == m,
        b[e + 1] == m,
        forall|k: int| i <= k < e ==> b[k] != m,
    ensures
        byte_double(b, i, m) == Some(e),
    decreases e - i,
{
    if i < e {
        lemma_byte_double_at(b, i + 1, e, m);
    }
}

proof fn lemma_byte_find_at(b: Seq<u8>, i: int, e: int, m: u8)
    requires
        0 <= i <= e < b.len(),
        b[e] == m,
        forall|k: int| i <= k < e ==> b[k] != m,
    ensures
        byte_find(b, i, m) == Some(e),
    decreases e - i,
{
    if i < e {
        lemma_byte_find_at(b, i + 1, e, m);
    }
}

/// In the editor, `**x**` (no `*` in `x`) is styled as its two markers
/// around the bold text, each over exactly its own bytes, shifted by the
/// offset at which the scan started.
pub proof fn law_bold_spans(x: Seq<u8>, off: int)
    requires
        forall|k: int| 0 <= k < x.len() ==> x[k] != 42,
    ensures
        ({
            let n = x.len() as int;
            spans_from(seq![42u8, 42u8] + x + seq![42u8, 42u8], 0, off).0 == seq![
                (off, off + 2, SpanKind::BoldMarker),
                (off + 2, off + 2 + n, SpanKind::Bold),
                (off + 2 + n, off + 4 + n, SpanKind::BoldMarker),
            ]
        }),
{
    let b = seq![42u8, 42u8] + x + seq![42u8, 42u8];
    let e: int = x.len() as int + 2;
    assert forall|k: int| 2 <= k < e implies b[k] != 42 by {
        assert(b[k] == x[k - 2]);
    }
    lemma_byte_double_at(b, 2, e, 42);
    lemma_span_step(b, 0, off);
    assert(span_step(b, 0, off).2 == e + 2);
    assert(spans_from(b, e + 2, off).0 =~= Seq::<(int, int, SpanKind)>::empty());
    assert(spans_from(b, 0, off).0 =~= span_step(b, 0, off).0);
}

/// In the editor, `*x*` (no `*` in `x`, and `x` not empty) is styled as its
/// two one-byte markers around the italic text.
pub proof fn law_italic_spans(x: Seq<u8>, off: int)
    requires
        x.len() > 0,
        forall|k: int| 0 <= k < x.len() ==> x[k] != 42,
    ensures
        ({
            let n = x.len() as int;
            spans_from(seq![42u8] + x + seq![42u8], 0, off).0 == seq![
                (off, off + 1, SpanKind::ItalicMarker),
                (off + 1, off + 1 + n, SpanKind::Italic),
                (off + 1 + n, off + 2 + n, SpanKind::ItalicMarker),
            ]
        }),
{
    let b = seq![42u8] + x + seq![42u8];
    let e: int = x.len() as int + 1;
    assert forall|k: int| 1 <= k < e implies b[k] != 42 by {
        assert(b[k] == x[k - 1]);
    }
    assert(b[1] == x[0]);
    lemma_byte_find_at(b, 1, e, 42);
    lemma_span_step(b, 0, off);
    assert(span_step(b, 0, off).2 == e + 1);
    assert(spans_from(b, e + 1, off).0 =~= Seq::<(int, int, SpanKind)>::empty());
    assert(spans_from(b, 0, off).0 =~= span_step(b, 0, off).0);
}

} // verus!
