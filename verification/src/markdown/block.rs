//! Block detection: which lines of a document form headings, paragraphs,
//! code and math blocks, lists, quotes, tables, rules, HTML and footnote
//! definitions.
use vstd::prelude::*;
use crate::markdown::ast::{ListMarker, opt_view};
use crate::markdown::inline::{find_char, find_closing_single, lemma_find_char};
use crate::num::{parse_u32_radix, u32_of};
use crate::text::{chars_of, string_from_chars, trim, trim_chars, trim_start, trim_start_chars, views};

verus! {

/// Lines `start..=end` of the document form one block of kind `kind`.
#[derive(Debug, Clone, PartialEq)]
pub struct BlockSlice {
    pub start: usize,
    pub end: usize,
    pub kind: BlockKind,
}

#[derive(Debug, Clone, PartialEq)]
pub enum BlockKind {
    Heading { level: u8 },
    Paragraph,
    CodeBlock { language: Option<String> },
    List { first_marker: ListMarker },
    BlockQuote,
    Table,
    ThematicBreak,
    MathBlock,
    HtmlBlock,
    FootnoteDef { label: String },
}

/// Model of [`BlockKind`].
pub enum KindModel {
    Heading(u8),
    Paragraph,
    CodeBlock(Option<Seq<char>>),
    List(ListMarker),
    BlockQuote,
    Table,
    ThematicBreak,
    MathBlock,
    HtmlBlock,
    FootnoteDef(Seq<char>),
}

impl BlockKind {
    pub open spec fn view(self) -> KindModel {
        match self {
            BlockKind::Heading { level } => KindModel::Heading(level),
            BlockKind::Paragraph => KindModel::Paragraph,
            BlockKind::CodeBlock { language } => KindModel::CodeBlock(opt_view(language)),
            BlockKind::List { first_marker } => KindModel::List(first_marker),
            BlockKind::BlockQuote => KindModel::BlockQuote,
            BlockKind::Table => KindModel::Table,
            BlockKind::ThematicBreak => KindModel::ThematicBreak,
            BlockKind::MathBlock => KindModel::MathBlock,
            BlockKind::HtmlBlock => KindModel::HtmlBlock,
            BlockKind::FootnoteDef { label } => KindModel::FootnoteDef(label@),
        }
    }
}

impl BlockSlice {
    pub open spec fn view(self) -> (int, int, KindModel) {
        (self.start as int, self.end as int, self.kind.view())
    }
}

/// An opening code fence: the fence characters and the info string.
pub struct FenceInfo {
    pub marker: String,
    pub language: Option<String>,
}

/// The models of a sequence of block slices.
pub open spec fn slice_models(v: Seq<BlockSlice>) -> Seq<(int, int, KindModel)> {
    Seq::new(v.len(), |k: int| v[k].view())
}

/// The character sequences of a sequence of lines.
pub open spec fn line_views(v: Seq<&str>) -> Seq<Seq<char>> {
    Seq::new(v.len(), |k: int| v[k]@)
}

/// Length of the run of `c` starting at `i`.
pub open spec fn run_len(s: Seq<char>, i: int, c: char) -> nat
    decreases s.len() - i,
{
    if 0 <= i < s.len() && s[i] == c {
        1 + run_len(s, i + 1, c)
    } else {
        0
    }
}

/// Occurrences of `c` in `s` from `i` on.
pub open spec fn count_from(s: Seq<char>, i: int, c: char) -> nat
    decreases s.len() - i,
{
    if 0 <= i < s.len() {
        (if s[i] == c {
            1nat
        } else {
            0nat
        }) + count_from(s, i + 1, c)
    } else {
        0
    }
}

/// First `j >= i` with `s[j] == a` and `s[j + 1] == b`.
pub open spec fn find_pair(s: Seq<char>, i: int, a: char, b: char) -> Option<int>
    decreases s.len() - i,
{
    if i < 0 || i + 1 >= s.len() {
        None
    } else if s[i] == a && s[i + 1] == b {
        Some(i)
    } else {
        find_pair(s, i + 1, a, b)
    }
}

/// Blank line: only whitespace.
pub open spec fn blank(l: Seq<char>) -> bool {
    trim(l).len() == 0
}

/// Level of an ATX heading (`#` to `######` then a space or the end).
pub open spec fn atx_level(l: Seq<char>) -> Option<u8> {
    let t = trim_start(l);
    let lv = run_len(t, 0, '#');
    if 1 <= lv <= 6 && (lv == t.len() || t[lv as int] == ' ') {
        Some(lv as u8)
    } else {
        None
    }
}

/// An opening fence: its character, its length and its language.
pub open spec fn fence_of(l: Seq<char>) -> Option<(char, nat, Option<Seq<char>>)> {
    let t = trim(l);
    if t.len() >= 3 && (t[0] == '`' || t[0] == '~') && t[1] == t[0] && t[2] == t[0] {
        let k = run_len(t, 0, t[0]);
        let lang = trim(t.skip(k as int));
        Some(
            (
                t[0],
                k,
                if lang.len() == 0 {
                    None
                } else {
                    Some(lang)
                },
            ),
        )
    } else {
        None
    }
}

/// A line that closes a fence of `m`: at least three `m` after trimming.
pub open spec fn closing_fence(l: Seq<char>, m: char) -> bool {
    let t = trim(l);
    t.len() > 0 && t[0] == m && run_len(t, 0, m) >= 3
}

/// `$$` alone on its line.
pub open spec fn math_delim(l: Seq<char>) -> bool {
    trim(l) == seq!['$', '$']
}

/// A thematic break: three or more of one of `-`, `*`, `_`, with spaces or
/// tabs between.
pub open spec fn thematic(l: Seq<char>) -> bool {
    let t = trim(l);
    &&& t.len() > 0
    &&& t[0] == '-' || t[0] == '*' || t[0] == '_'
    &&& count_from(t, 0, t[0]) >= 3
    &&& forall|k: int| 0 <= k < t.len() ==> #[trigger] rule_char(t[k], t[0])
}

/// A character allowed in a thematic break made of `f`.
pub open spec fn rule_char(c: char, f: char) -> bool {
    c == f || c == ' ' || c == '\t'
}

/// A table row begins or ends with `|`.
pub open spec fn table_row(l: Seq<char>) -> bool {
    let t = trim(l);
    t.len() > 0 && (t[0] == '|' || t[t.len() - 1] == '|')
}

/// A cell of a separator row: empty, one of `:`, `-:`, `:-:`, `:-`, or dashes.
pub open spec fn sep_cell(c: Seq<char>) -> bool {
    ||| c == seq![':']
    ||| c == seq!['-', ':']
    ||| c == seq![':', '-', ':']
    ||| c == seq![':', '-']
    ||| forall|k: int| 0 <= k < c.len() ==> #[trigger] c[k] == '-'
}

/// End of the `|`-separated cell that starts at `i`.
pub open spec fn cell_end(t: Seq<char>, i: int) -> int {
    match find_char(t, i, '|') {
        Some(e) => e,
        None => t.len() as int,
    }
}

/// Every cell of `t` from position `i` on is a separator cell.
pub open spec fn sep_cells(t: Seq<char>, i: int) -> bool
    decreases t.len() + 1 - i,
{
    if i < 0 || i > t.len() {
        true
    } else {
        proof {
            lemma_find_char(t, i, '|');
        }
        let e = cell_end(t, i);
        sep_cell(trim(t.subrange(i, e))) && (e < t.len() ==> sep_cells(t, e + 1))
    }
}

/// A table separator row: has a `-`, and every cell is a separator cell.
pub open spec fn table_sep(l: Seq<char>) -> bool {
    let t = trim(l);
    find_char(t, 0, '-') is Some && sep_cells(t, 0)
}

/// The marker of a list item line: `- `, `* `, `+ ` or a number and `. `.
pub open spec fn list_marker(l: Seq<char>) -> Option<ListMarker> {
    let t = trim_start(l);
    if t.len() >= 2 && t[0] == '-' && t[1] == ' ' {
        Some(ListMarker::Dash)
    } else if t.len() >= 2 && t[0] == '*' && t[1] == ' ' {
        Some(ListMarker::Star)
    } else if t.len() >= 2 && t[0] == '+' && t[1] == ' ' {
        Some(ListMarker::Plus)
    } else {
        match find_pair(t, 0, '.', ' ') {
            None => None,
            Some(k) => match u32_of(t.take(k), 10) {
                Some(v) => Some(ListMarker::Number(v)),
                None => None,
            },
        }
    }
}

/// The label of a footnote definition line `[^label]: ...`.
pub open spec fn footnote_label(l: Seq<char>) -> Option<Seq<char>> {
    let t = trim(l);
    if t.len() >= 2 && t[0] == '[' && t[1] == '^' {
        match find_pair(t, 0, ']', ':') {
            Some(e) => Some(t.subrange(2, e)),
            None => None,
        }
    } else {
        None
    }
}

/// A line that starts with `>`.
pub open spec fn quote_line(l: Seq<char>) -> bool {
    l.len() > 0 && l[0] == '>'
}

/// A line whose first non-blank character is `<`.
pub open spec fn html_line(l: Seq<char>) -> bool {
    trim_start(l).len() > 0 && trim_start(l)[0] == '<'
}

/// A line that ends a paragraph before it.
pub open spec fn interrupts(l: Seq<char>) -> bool {
    atx_level(l) is Some || fence_of(l) is Some || thematic(l) || quote_line(l) || list_marker(
        l,
    ) is Some
}

/// First line at or after `j` that closes a fence of `m`, or the end.
pub open spec fn fence_scan(ls: Seq<Seq<char>>, j: int, m: char) -> int
    decreases ls.len() - j,
{
    if 0 <= j < ls.len() && !closing_fence(ls[j], m) {
        fence_scan(ls, j + 1, m)
    } else {
        j
    }
}

/// First line at or after `j` that is `$$`, or the end.
pub open spec fn math_scan(ls: Seq<Seq<char>>, j: int) -> int
    decreases ls.len() - j,
{
    if 0 <= j < ls.len() && !math_delim(ls[j]) {
        math_scan(ls, j + 1)
    } else {
        j
    }
}

/// First line at or after `j` that is not a table row.
pub open spec fn row_scan(ls: Seq<Seq<char>>, j: int) -> int
    decreases ls.len() - j,
{
    if 0 <= j < ls.len() && table_row(ls[j]) {
        row_scan(ls, j + 1)
    } else {
        j
    }
}

/// First line at or after `j` that does not start with `>`.
pub open spec fn quote_scan(ls: Seq<Seq<char>>, j: int) -> int
    decreases ls.len() - j,
{
    if 0 <= j < ls.len() && quote_line(ls[j]) {
        quote_scan(ls, j + 1)
    } else {
        j
    }
}

/// First line at or after `j` that is blank or neither a list item nor indented.
pub open spec fn list_scan(ls: Seq<Seq<char>>, j: int) -> int
    decreases ls.len() - j,
{
    if 0 <= j < ls.len() && !blank(ls[j]) && (list_marker(ls[j]) is Some || (ls[j].len() > 0 && (
    ls[j][0] == ' ' || ls[j][0] == '\t'))) {
        list_scan(ls, j + 1)
    } else {
        j
    }
}

/// First blank line at or after `j`, or the end.
pub open spec fn nonblank_scan(ls: Seq<Seq<char>>, j: int) -> int
    decreases ls.len() - j,
{
    if 0 <= j < ls.len() && !blank(ls[j]) {
        nonblank_scan(ls, j + 1)
    } else {
        j
    }
}

/// End (exclusive) of the paragraph whose lines from `j` on are still in it.
pub open spec fn para_scan(ls: Seq<Seq<char>>, j: int) -> int
    decreases ls.len() - j,
{
    if 0 <= j < ls.len() && !blank(ls[j]) {
        if j + 1 < ls.len() && interrupts(ls[j + 1]) {
            j + 1
        } else {
            para_scan(ls, j + 1)
        }
    } else {
        j
    }
}

/// The block that starts at line `i` (none for a blank line), and the line
/// where detection resumes.
pub open spec fn block_step(ls: Seq<Seq<char>>, i: int) -> (Option<(int, int, KindModel)>, int) {
    let n = ls.len() as int;
    let l = ls[i];
    if blank(l) {
        (None, i + 1)
    } else if atx_level(l) is Some {
        (Some((i, i, KindModel::Heading(atx_level(l)->0))), i + 1)
    } else if fence_of(l) is Some {
        let f = fence_of(l)->0;
        let j = fence_scan(ls, i + 1, f.0);
        (
            Some(
                (
                    i,
                    if j < n {
                        j
                    } else {
                        n - 1
                    },
                    KindModel::CodeBlock(f.2),
                ),
            ),
            if j < n {
                j + 1
            } else {
                n
            },
        )
    } else if math_delim(l) {
        let j = math_scan(ls, i + 1);
        (
            Some(
                (
                    i,
                    if j < n {
                        j
                    } else {
                        n - 1
                    },
                    KindModel::MathBlock,
                ),
            ),
            if j < n {
                j + 1
            } else {
                n
            },
        )
    } else if thematic(l) {
        (Some((i, i, KindModel::ThematicBreak)), i + 1)
    } else if i + 1 < n && table_sep(ls[i + 1]) && table_row(l) {
        let j = row_scan(ls, i + 2);
        (Some((i, j - 1, KindModel::Table)), j)
    } else if quote_line(l) {
        let j = quote_scan(ls, i);
        (Some((i, j - 1, KindModel::BlockQuote)), j)
    } else if list_marker(l) is Some {
        let j = list_scan(ls, i);
        (Some((i, j - 1, KindModel::List(list_marker(l)->0))), j)
    } else if footnote_label(l) is Some {
        let j = nonblank_scan(ls, i + 1);
        (Some((i, j - 1, KindModel::FootnoteDef(footnote_label(l)->0))), j)
    } else if html_line(l) {
        let j = nonblank_scan(ls, i);
        (Some((i, j - 1, KindModel::HtmlBlock)), j)
    } else {
        let j = para_scan(ls, i);
        (Some((i, j - 1, KindModel::Paragraph)), j)
    }
}

pub proof fn lemma_scans(ls: Seq<Seq<char>>, j: int, m: char)
    requires
        0 <= j <= ls.len(),
    ensures
        j <= fence_scan(ls, j, m) <= ls.len(),
        j <= math_scan(ls, j) <= ls.len(),
        j <= row_scan(ls, j) <= ls.len(),
        j <= quote_scan(ls, j) <= ls.len(),
        j <= list_scan(ls, j) <= ls.len(),
        j <= nonblank_scan(ls, j) <= ls.len(),
        j <= para_scan(ls, j) <= ls.len(),
        j < ls.len() && quote_line(ls[j]) ==> quote_scan(ls, j) > j,
        j < ls.len() && !blank(ls[j]) ==> nonblank_scan(ls, j) > j && para_scan(ls, j) > j,
        j < ls.len() && !blank(ls[j]) && list_marker(ls[j]) is Some ==> list_scan(ls, j) > j,
    decreases ls.len() - j,
{
    if j < ls.len() {
        lemma_scans(ls, j + 1, m);
    }
}

/// Detection moves forward and every block lies within the document.
pub proof fn lemma_block_step(ls: Seq<Seq<char>>, i: int)
    requires
        0 <= i < ls.len(),
    ensures
        i < block_step(ls, i).1 <= ls.len(),
        block_step(ls, i).0 matches Some((a, b, _)) ==> a == i && i <= b < block_step(ls, i).1,
        block_step(ls, i).0 matches Some((a, b, _)) ==> b == block_step(ls, i).1 - 1,
        block_step(ls, i).0 is Some <==> !blank(ls[i]),
        block_step(ls, i).0 is None ==> block_step(ls, i).1 == i + 1,
{
    lemma_scans(ls, i, ' ');
    lemma_scans(ls, i + 1, ' ');
    if let Some(f) = fence_of(ls[i]) {
        lemma_scans(ls, i + 1, f.0);
    }
    if i + 2 <= ls.len() {
        lemma_scans(ls, i + 2, ' ');
    }
}

/// The blocks of the lines from `i` on.
pub open spec fn blocks_from(ls: Seq<Seq<char>>, i: int) -> Seq<(int, int, KindModel)>
    decreases ls.len() - i,
{
    if i < 0 || i >= ls.len() {
        seq![]
    } else {
        proof {
            lemma_block_step(ls, i);
        }
        let (b, nx) = block_step(ls, i);
        match b {
            Some(x) => seq![x] + blocks_from(ls, nx),
            None => blocks_from(ls, nx),
        }
    }
}

proof fn lemma_blocks_order(ls: Seq<Seq<char>>, i: int)
    requires
        0 <= i,
    ensures
        forall|k: int|
            0 <= k < blocks_from(ls, i).len() ==> i <= (#[trigger] blocks_from(ls, i)[k]).0
                <= blocks_from(ls, i)[k].1 < ls.len(),
        forall|k: int|
            0 <= k < blocks_from(ls, i).len() - 1 ==> (#[trigger] blocks_from(ls, i)[k]).1
                < blocks_from(ls, i)[k + 1].0,
    decreases ls.len() - i,
{
    if i < ls.len() {
        lemma_block_step(ls, i);
        let (b, nx) = block_step(ls, i);
        lemma_blocks_order(ls, nx);
        let rest = blocks_from(ls, nx);
        let r = blocks_from(ls, i);
        if let Some(x) = b {
            assert(r == seq![x] + rest);
            assert forall|k: int| 0 <= k < r.len() implies i <= (#[trigger] r[k]).0 <= r[k].1
                < ls.len() by {
                if k > 0 {
                    assert(r[k] == rest[k - 1]);
                }
            }
            assert forall|k: int| 0 <= k < r.len() - 1 implies (#[trigger] r[k]).1 < r[k + 1].0 by {
                if k > 0 {
                    assert(r[k] == rest[k - 1]);
                    assert(r[k + 1] == rest[k]);
                } else {
                    assert(r[1] == rest[0]);
                }
            }
        } else {
            assert(r == rest);
        }
    }
}

/// The blocks of a document come in document order, never overlap, and
/// each covers lines of the document.
pub proof fn law_blocks_ordered(ls: Seq<Seq<char>>)
    ensures
        forall|k: int|
            0 <= k < blocks_model(ls).len() ==> 0 <= (#[trigger] blocks_model(ls)[k]).0
                <= blocks_model(ls)[k].1 < ls.len(),
        forall|k: int|
            0 <= k < blocks_model(ls).len() - 1 ==> (#[trigger] blocks_model(ls)[k]).1
                < blocks_model(ls)[k + 1].0,
{
    lemma_blocks_order(ls, 0);
}

proof fn lemma_blocks_start(ls: Seq<Seq<char>>, i: int)
    requires
        0 <= i,
    ensures
        forall|k: int|
            0 <= k < blocks_from(ls, i).len() ==> !blank(
                ls[(#[trigger] blocks_from(ls, i)[k]).0],
            ),
    decreases ls.len() - i,
{
    if i < ls.len() {
        lemma_block_step(ls, i);
        let (b, nx) = block_step(ls, i);
        lemma_blocks_start(ls, nx);
        let rest = blocks_from(ls, nx);
        let r = blocks_from(ls, i);
        if let Some(x) = b {
            assert(r == seq![x] + rest);
            assert forall|k: int| 0 <= k < r.len() implies !blank(ls[(#[trigger] r[k]).0]) by {
                if k > 0 {
                    assert(r[k] == rest[k - 1]);
                }
            }
        } else {
            assert(r == rest);
        }
    }
}

/// The block of `blocks_from(ls, i)` that holds line `m`, when there is one.
spec fn covers(r: Seq<(int, int, KindModel)>, m: int) -> bool {
    exists|k: int| 0 <= k < r.len() && (#[trigger] r[k]).0 <= m <= r[k].1
}

#[verifier::rlimit(30)]
proof fn lemma_blocks_cover(ls: Seq<Seq<char>>, i: int, m: int)
    requires
        0 <= i <= m < ls.len(),
        !blank(ls[m]),
    ensures
        covers(blocks_from(ls, i), m),
    decreases ls.len() - i,
{
    lemma_block_step(ls, i);
    let (b, nx) = block_step(ls, i);
    let rest = blocks_from(ls, nx);
    let r = blocks_from(ls, i);
    if let Some(x) = b {
        assert(r == seq![x] + rest);
        if m < nx {
            assert(r[0] == x);
        } else {
            lemma_blocks_cover(ls, nx, m);
            let k2 = choose|k: int| 0 <= k < rest.len() && (#[trigger] rest[k]).0 <= m <= rest[k].1;
            assert(r[k2 + 1] == rest[k2]);
        }
    } else {
        assert(r == rest);
        assert(m != i);
        lemma_blocks_cover(ls, nx, m);
    }
}

/// Every block starts on a non-blank line, and every non-blank line of a
/// document lies in some block: detection drops nothing but blank lines.
pub proof fn law_blocks_cover(ls: Seq<Seq<char>>)
    ensures
        forall|k: int|
            0 <= k < blocks_model(ls).len() ==> !blank(ls[(#[trigger] blocks_model(ls)[k]).0]),
        forall|m: int|
            0 <= m < ls.len() && !blank(#[trigger] ls[m]) ==> exists|k: int|
                0 <= k < blocks_model(ls).len() && (#[trigger] blocks_model(ls)[k]).0 <= m
                    <= blocks_model(ls)[k].1,
{
    lemma_blocks_order(ls, 0);
    lemma_blocks_start(ls, 0);
    assert forall|m: int| 0 <= m < ls.len() && !blank(#[trigger] ls[m]) implies exists|k: int|
        0 <= k < blocks_model(ls).len() && (#[trigger] blocks_model(ls)[k]).0 <= m
            <= blocks_model(ls)[k].1 by {
        lemma_blocks_cover(ls, 0, m);
        let r = blocks_from(ls, 0);
        let k = choose|k: int| 0 <= k < r.len() && (#[trigger] r[k]).0 <= m <= r[k].1;
        assert(blocks_model(ls)[k] == r[k]);
    }
}

/// The blocks of a document given as lines.
pub open spec fn blocks_model(ls: Seq<Seq<char>>) -> Seq<(int, int, KindModel)> {
    blocks_from(ls, 0)
}

/// Length of the run of `c` from `i`.
pub(crate) fn run_length(s: &[char], i: usize, c: char) -> (r: usize)
    requires
        i <= s@.len(),
    ensures
        r == run_len(s@, i as int, c),
        i + r <= s@.len(),
{
    let mut j = i;
    while j < s.len() && s[j] == c
        invariant
            i <= j <= s@.len(),
            run_len(s@, i as int, c) == (j - i) + run_len(s@, j as int, c),
        decreases s@.len() - j,
    {
        j += 1;
    }
    j - i
}

/// Occurrences of `c` in `s`.
fn count_char(s: &[char], c: char) -> (r: usize)
    ensures
        r == count_from(s@, 0, c),
{
    let mut j = s.len();
    let mut r: usize = 0;
    while j > 0
        invariant
            j <= s@.len(),
            r + j <= s@.len(),
            r == count_from(s@, j as int, c),
        decreases j,
    {
        j -= 1;
        proof {
            lemma_count_step(s@, j as int, c);
        }
        if s[j] == c {
            r += 1;
        }
    }
    r
}

proof fn lemma_count_step(s: Seq<char>, j: int, c: char)
    requires
        0 <= j < s.len(),
    ensures
        count_from(s, j, c) == (if s[j] == c {
            1nat
        } else {
            0nat
        }) + count_from(s, j + 1, c),
{
}

/// First `j >= i` with `s[j] == a` and `s[j + 1] == b`.
pub(crate) fn find_pair_at(s: &[char], i: usize, a: char, b: char) -> (r: Option<usize>)
    ensures
        match r {
            Some(e) => find_pair(s@, i as int, a, b) == Some(e as int),
            None => find_pair(s@, i as int, a, b) is None,
        },
{
    let mut j = i;
    while j < s.len() && s.len() - j > 1
        invariant
            i <= j,
            find_pair(s@, i as int, a, b) == find_pair(s@, j as int, a, b),
        decreases s@.len() - j,
    {
        if s[j] == a && s[j + 1] == b {
            return Some(j);
        }
        j += 1;
    }
    None
}

pub proof fn lemma_find_pair(s: Seq<char>, i: int, a: char, b: char)
    ensures
        find_pair(s, i, a, b) matches Some(e) ==> i <= e && e + 1 < s.len() && s[e] == a && s[e
            + 1] == b,
    decreases s.len() - i,
{
    if !(i < 0 || i + 1 >= s.len()) && !(s[i] == a && s[i + 1] == b) {
        lemma_find_pair(s, i + 1, a, b);
    }
}

pub(crate) fn is_blank(line: &[char]) -> (r: bool)
    ensures
        r == blank(line@),
{
    trim_chars(line).len() == 0
}

fn parse_atx_heading(line: &[char]) -> (r: Option<u8>)
    ensures
        r == atx_level(line@),
{
    let trimmed = trim_start_chars(line);
    let level = run_length(trimmed.as_slice(), 0, '#');
    if level >= 1 && level <= 6 {
        if level == trimmed.len() || trimmed[level] == ' ' {
            return Some(level as u8);
        }
    }
    None
}

fn parse_code_fence(line: &[char]) -> (r: Option<FenceInfo>)
    ensures
        match fence_of(line@) {
            None => r is None,
            Some((m, k, lang)) => r matches Some(f) && f.marker@ == Seq::new(k, |_q: int| m)
                && opt_view(f.language) == lang,
        },
{
    let trimmed = trim_chars(line);
    if trimmed.len() < 3 {
        return None;
    }
    let marker_char = if trimmed[0] == '`' && trimmed[1] == '`' && trimmed[2] == '`' {
        '`'
    } else if trimmed[0] == '~' && trimmed[1] == '~' && trimmed[2] == '~' {
        '~'
    } else {
        return None;
    };
    let marker_len = run_length(trimmed.as_slice(), 0, marker_char);
    let lang = trim_chars(vstd::slice::slice_subrange(trimmed.as_slice(), marker_len, trimmed.len()));
    let language = if lang.len() == 0 {
        None
    } else {
        Some(string_from_chars(lang.as_slice()))
    };
    let mut m: Vec<char> = Vec::new();
    let mut q: usize = 0;
    while q < marker_len
        invariant
            q <= marker_len,
            m@ == Seq::new(q as nat, |_q: int| marker_char),
        decreases marker_len - q,
    {
        m.push(marker_char);
        q += 1;
        proof {
            assert(m@ =~= Seq::new(q as nat, |_q: int| marker_char));
        }
    }
    proof {
        assert(trimmed@.skip(marker_len as int) =~= trimmed@.subrange(
            marker_len as int,
            trimmed@.len() as int,
        ));
    }
    Some(FenceInfo { marker: string_from_chars(m.as_slice()), language })
}

fn is_closing_fence(line: &[char], marker: &str) -> (r: bool)
    requires
        marker@.len() > 0,
    ensures
        r == closing_fence(line@, marker@[0]),
{
    let trimmed = trim_chars(line);
    let m = chars_of(marker);
    let fence_char = m[0];
    if trimmed.len() == 0 || trimmed[0] != fence_char {
        return false;
    }
    let count = run_length(trimmed.as_slice(), 0, fence_char);
    count >= 3
}

fn is_math_delim(line: &[char]) -> (r: bool)
    ensures
        r == math_delim(line@),
{
    let t = trim_chars(line);
    let r = t.len() == 2 && t[0] == '$' && t[1] == '$';
    proof {
        if r {
            assert(t@ =~= seq!['$', '$']);
        }
    }
    r
}

fn is_thematic_break(line: &[char]) -> (r: bool)
    ensures
        r == thematic(line@),
{
    let trimmed = trim_chars(line);
    if trimmed.len() == 0 {
        return false;
    }
    let first = trimmed[0];
    if first != '-' && first != '*' && first != '_' {
        return false;
    }
    let count = count_char(trimmed.as_slice(), first);
    if count < 3 {
        return false;
    }
    let mut k: usize = 0;
    while k < trimmed.len()
        invariant
            k <= trimmed@.len(),
            trimmed@ == trim(line@),
            trimmed@.len() > 0,
            first == trimmed@[0],
            first == '-' || first == '*' || first == '_',
            count_from(trimmed@, 0, first) >= 3,
            forall|q: int| 0 <= q < k ==> #[trigger] rule_char(trimmed@[q], first),
        decreases trimmed@.len() - k,
    {
        let c = trimmed[k];
        if c != first && c != ' ' && c != '\t' {
            proof {
                assert(!rule_char(trimmed@[k as int], first));
            }
            return false;
        }
        k += 1;
    }
    true
}

fn is_table_row(line: &[char]) -> (r: bool)
    ensures
        r == table_row(line@),
{
    let trimmed = trim_chars(line);
    trimmed.len() > 0 && (trimmed[0] == '|' || trimmed[trimmed.len() - 1] == '|')
}

fn is_sep_cell(c: &[char]) -> (r: bool)
    ensures
        r == sep_cell(c@),
{
    let n = c.len();
    let mut all_dash = true;
    let mut k: usize = 0;
    while k < n
        invariant
            k <= n,
            n == c@.len(),
            all_dash == (forall|q: int| 0 <= q < k ==> #[trigger] c@[q] == '-'),
        decreases n - k,
    {
        if c[k] != '-' {
            all_dash = false;
        }
        k += 1;
    }
    let r = (n == 1 && c[0] == ':') || (n == 2 && c[0] == '-' && c[1] == ':') || (n == 3 && c[0]
        == ':' && c[1] == '-' && c[2] == ':') || (n == 2 && c[0] == ':' && c[1] == '-') || all_dash;
    proof {
        if n == 1 && c@[0] == ':' {
            assert(c@ =~= seq![':']);
        }
        if n == 2 && c@[0] == '-' && c@[1] == ':' {
            assert(c@ =~= seq!['-', ':']);
        }
        if n == 3 && c@[0] == ':' && c@[1] == '-' && c@[2] == ':' {
            assert(c@ =~= seq![':', '-', ':']);
        }
        if n == 2 && c@[0] == ':' && c@[1] == '-' {
            assert(c@ =~= seq![':', '-']);
        }
        if c@ == seq![':'] {
            assert(c@[0] == ':');
        }
        if c@ == seq!['-', ':'] {
            assert(c@[0] == '-' && c@[1] == ':');
        }
        if c@ == seq![':', '-', ':'] {
            assert(c@[0] == ':' && c@[1] == '-' && c@[2] == ':');
        }
        if c@ == seq![':', '-'] {
            assert(c@[0] == ':' && c@[1] == '-');
        }
    }
    r
}

fn is_table_separator(line: &[char]) -> (r: bool)
    ensures
        r == table_sep(line@),
{
    let trimmed = trim_chars(line);
    let t = trimmed.as_slice();
    let n = t.len();
    if find_closing_single(t, 0, '-').is_none() {
        return false;
    }
    let mut i: usize = 0;
    loop
        invariant
            i <= n,
            n == t@.len(),
            t@ == trim(line@),
            find_char(t@, 0, '-') is Some,
            sep_cells(t@, 0) == sep_cells(t@, i as int),
        decreases n - i,
    {
        let e = match find_closing_single(t, i, '|') {
            Some(e) => e,
            None => n,
        };
        proof {
            lemma_find_char(t@, i as int, '|');
        }
        let cell = trim_chars(vstd::slice::slice_subrange(t, i, e));
        if !is_sep_cell(cell.as_slice()) {
            return false;
        }
        if e >= n {
            return true;
        }
        i = e + 1;
    }
}

pub(crate) fn list_marker_of(line: &[char]) -> (r: Option<ListMarker>)
    ensures
        r == list_marker(line@),
{
    let trimmed = trim_start_chars(line);
    let t = trimmed.as_slice();
    if t.len() >= 2 && t[0] == '-' && t[1] == ' ' {
        Some(ListMarker::Dash)
    } else if t.len() >= 2 && t[0] == '*' && t[1] == ' ' {
        Some(ListMarker::Star)
    } else if t.len() >= 2 && t[0] == '+' && t[1] == ' ' {
        Some(ListMarker::Plus)
    } else {
        let dot_pos = match find_pair_at(t, 0, '.', ' ') {
            Some(p) => p,
            None => return None,
        };
        proof {
            lemma_find_pair(t@, 0, '.', ' ');
        }
        match parse_u32_radix(vstd::slice::slice_subrange(t, 0, dot_pos), 10) {
            Some(num) => Some(ListMarker::Number(num)),
            None => None,
        }
    }
}

/// The list marker that starts a line, if any: `- `, `* `, `+ `, or a
/// number followed by `. `.
pub fn parse_list_marker(line: &str) -> (r: Option<ListMarker>)
    ensures
        r == list_marker(line@),
{
    let chars = chars_of(line);
    list_marker_of(chars.as_slice())
}

fn parse_footnote_def(line: &[char]) -> (r: Option<String>)
    ensures
        opt_view(r) == footnote_label(line@),
{
    let trimmed = trim_chars(line);
    let t = trimmed.as_slice();
    if !(t.len() >= 2 && t[0] == '[' && t[1] == '^') {
        return None;
    }
    let end = match find_pair_at(t, 0, ']', ':') {
        Some(e) => e,
        None => return None,
    };
    proof {
        lemma_find_pair(t@, 0, ']', ':');
        if end < 2 {
            assert(t@[end as int] == ']');
        }
    }
    Some(string_from_chars(vstd::slice::slice_subrange(t, 2, end)))
}

fn is_quote_line(line: &[char]) -> (r: bool)
    ensures
        r == quote_line(line@),
{
    line.len() > 0 && line[0] == '>'
}

fn is_html_line(line: &[char]) -> (r: bool)
    ensures
        r == html_line(line@),
{
    let t = trim_start_chars(line);
    t.len() > 0 && t[0] == '<'
}

fn is_indented(line: &[char]) -> (r: bool)
    ensures
        r == (line@.len() > 0 && (line@[0] == ' ' || line@[0] == '\t')),
{
    line.len() > 0 && (line[0] == ' ' || line[0] == '\t')
}

fn interrupts_paragraph(line: &[char]) -> (r: bool)
    ensures
        r == interrupts(line@),
{
    parse_atx_heading(line).is_some() || parse_code_fence(line).is_some() || is_thematic_break(
        line,
    ) || is_quote_line(line) || list_marker_of(line).is_some()
}

/// The characters of each line.
fn line_chars(lines: &[&str]) -> (r: Vec<Vec<char>>)
    ensures
        r@.len() == lines@.len(),
        forall|k: int| 0 <= k < r@.len() ==> #[trigger] r@[k]@ == lines@[k]@,
{
    let mut r: Vec<Vec<char>> = Vec::new();
    let mut k: usize = 0;
    while k < lines.len()
        invariant
            k <= lines@.len(),
            r@.len() == k,
            forall|q: int| 0 <= q < k ==> #[trigger] r@[q]@ == lines@[q]@,
        decreases lines@.len() - k,
    {
        r.push(chars_of(lines[k]));
        k += 1;
    }
    r
}

/// Splits a document, given as its lines, into blocks: each block is the
/// range of lines it covers and its kind.
pub fn detect_blocks(lines: &[&str]) -> (r: Vec<BlockSlice>)
    ensures
        slice_models(r@) == blocks_model(line_views(lines@)),
{
    let cs = line_chars(lines);
    proof {
        assert(views(cs@) =~= line_views(lines@));
    }
    detect_blocks_chars(cs.as_slice())
}

/// [`detect_blocks`] over the characters of each line.
pub fn detect_blocks_chars(cs: &[Vec<char>]) -> (r: Vec<BlockSlice>)
    ensures
        slice_models(r@) == blocks_model(views(cs@)),
{
    let ghost ls = views(cs@);
    let n = cs.len();
    let mut slices: Vec<BlockSlice> = Vec::new();
    let mut i: usize = 0;
    while i < n
        invariant
            n == ls.len(),
            n == cs@.len(),
            forall|k: int| 0 <= k < n ==> #[trigger] cs@[k]@ == ls[k],
            i <= n,
            slice_models(slices@) + blocks_from(ls, i as int) == blocks_from(ls, 0),
        decreases n - i,
    {
        proof {
            lemma_block_step(ls, i as int);
        }
        let ghost step = block_step(ls, i as int);
        let ghost before = slice_models(slices@);
        let line = cs[i].as_slice();
        let mut found: Option<BlockSlice> = None;
        let mut next: usize = i + 1;
        if is_blank(line) {
        } else if let Some(level) = parse_atx_heading(line) {
            found = Some(BlockSlice { start: i, end: i, kind: BlockKind::Heading { level } });
        } else if let Some(fence) = parse_code_fence(line) {
            let ghost f = fence_of(ls[i as int])->0;
            let ghost m = f.0;
            proof {
                assert(fence.marker@[0] == m);
                lemma_scans(ls, i + 1, m);
            }
            let lang = fence.language;
            let start = i;
            let mut j = i + 1;
            while j < n && !is_closing_fence(cs[j].as_slice(), fence.marker.as_str())
                invariant
                    i < j <= n,
                    n == ls.len(),
                    n == cs@.len(),
                    forall|k: int| 0 <= k < n ==> #[trigger] cs@[k]@ == ls[k],
                    fence.marker@.len() > 0,
                    fence.marker@[0] == m,
                    fence_scan(ls, j as int, m) == fence_scan(ls, i + 1, m),
                decreases n - j,
            {
                j += 1;
            }
            let end = if j < n {
                j
            } else {
                n - 1
            };
            found = Some(BlockSlice { start, end, kind: BlockKind::CodeBlock { language: lang } });
            next = if j < n {
                j + 1
            } else {
                n
            };
        } else if is_math_delim(line) {
            let start = i;
            let mut j = i + 1;
            while j < n && !is_math_delim(cs[j].as_slice())
                invariant
                    i < j <= n,
                    n == ls.len(),
                    n == cs@.len(),
                    forall|k: int| 0 <= k < n ==> #[trigger] cs@[k]@ == ls[k],
                    math_scan(ls, j as int) == math_scan(ls, i + 1),
                decreases n - j,
            {
                j += 1;
            }
            let end = if j < n {
                j
            } else {
                n - 1
            };
            found = Some(BlockSlice { start, end, kind: BlockKind::MathBlock });
            next = if j < n {
                j + 1
            } else {
                n
            };
        } else if is_thematic_break(line) {
            found = Some(BlockSlice { start: i, end: i, kind: BlockKind::ThematicBreak });
        } else if n - i > 1 && is_table_separator(cs[i + 1].as_slice()) && is_table_row(line) {
            let start = i;
            let mut j = i + 2;
            while j < n && is_table_row(cs[j].as_slice())
                invariant
                    i + 2 <= j <= n,
                    n == ls.len(),
                    n == cs@.len(),
                    forall|k: int| 0 <= k < n ==> #[trigger] cs@[k]@ == ls[k],
                    row_scan(ls, j as int) == row_scan(ls, i + 2),
                decreases n - j,
            {
                j += 1;
            }
            found = Some(BlockSlice { start, end: j - 1, kind: BlockKind::Table });
            next = j;
        } else if is_quote_line(line) {
            let start = i;
            let mut j = i;
            while j < n && is_quote_line(cs[j].as_slice())
                invariant
                    i <= j <= n,
                    n == ls.len(),
                    n == cs@.len(),
                    forall|k: int| 0 <= k < n ==> #[trigger] cs@[k]@ == ls[k],
                    quote_scan(ls, j as int) == quote_scan(ls, i as int),
                decreases n - j,
            {
                j += 1;
            }
            found = Some(BlockSlice { start, end: j - 1, kind: BlockKind::BlockQuote });
            next = j;
        } else if let Some(marker) = list_marker_of(line) {
            let start = i;
            let mut j = i;
            while j < n
                invariant
                    i <= j <= n,
                    n == ls.len(),
                    n == cs@.len(),
                    forall|k: int| 0 <= k < n ==> #[trigger] cs@[k]@ == ls[k],
                    list_scan(ls, j as int) == list_scan(ls, i as int),
                ensures
                    i <= j <= n,
                    list_scan(ls, i as int) == j,
                decreases n - j,
            {
                let cur = cs[j].as_slice();
                if is_blank(cur) {
                    break;
                }
                if list_marker_of(cur).is_some() {
                    j += 1;
                } else if is_indented(cur) {
                    j += 1;
                } else {
                    break;
                }
            }
            found = Some(
                BlockSlice { start, end: j - 1, kind: BlockKind::List { first_marker: marker } },
            );
            next = j;
        } else if let Some(label) = parse_footnote_def(line) {
            let start = i;
            let mut j = i + 1;
            while j < n && !is_blank(cs[j].as_slice())
                invariant
                    i < j <= n,
                    n == ls.len(),
                    n == cs@.len(),
                    forall|k: int| 0 <= k < n ==> #[trigger] cs@[k]@ == ls[k],
                    nonblank_scan(ls, j as int) == nonblank_scan(ls, i + 1),
                decreases n - j,
            {
                j += 1;
            }
            found = Some(BlockSlice { start, end: j - 1, kind: BlockKind::FootnoteDef { label } });
            next = j;
        } else if is_html_line(line) {
            let start = i;
            let mut j = i;
            while j < n && !is_blank(cs[j].as_slice())
                invariant
                    i <= j <= n,
                    n == ls.len(),
                    n == cs@.len(),
                    forall|k: int| 0 <= k < n ==> #[trigger] cs@[k]@ == ls[k],
                    nonblank_scan(ls, j as int) == nonblank_scan(ls, i as int),
                decreases n - j,
            {
                j += 1;
            }
            found = Some(BlockSlice { start, end: j - 1, kind: BlockKind::HtmlBlock });
            next = j;
        } else {
            let start = i;
            let mut j = i;
            while j < n && !is_blank(cs[j].as_slice())
                invariant_except_break
                    para_scan(ls, j as int) == para_scan(ls, i as int),
                invariant
                    i <= j <= n,
                    n == ls.len(),
                    n == cs@.len(),
                    forall|k: int| 0 <= k < n ==> #[trigger] cs@[k]@ == ls[k],
                ensures
                    i <= j <= n,
                    para_scan(ls, i as int) == j,
                decreases n - j,
            {
                j += 1;
                if j < n && interrupts_paragraph(cs[j].as_slice()) {
                    break;
                }
            }
            found = Some(BlockSlice { start, end: j - 1, kind: BlockKind::Paragraph });
            next = j;
        }
        proof {
            assert(next == step.1);
            if let Some(b) = &found {
                assert(step.0 == Some(b.view()));
            } else {
                assert(step.0 is None);
            }
        }
        match found {
            Some(b) => {
                let ghost bv = b.view();
                slices.push(b);
                proof {
                    assert(slice_models(slices@) =~= before.push(bv));
                    assert(blocks_from(ls, i as int) =~= seq![bv] + blocks_from(ls, next as int));
                    assert(slice_models(slices@) + blocks_from(ls, next as int) =~= before
                        + blocks_from(ls, i as int));
                }
            },
            None => {
                proof {
                    assert(blocks_from(ls, i as int) == blocks_from(ls, next as int));
                }
            },
        }
        i = next;
    }
    proof {
        assert(slice_models(slices@) =~= slice_models(slices@) + blocks_from(ls, n as int));
    }
    slices
}

pub proof fn lemma_run_len(s: Seq<char>, i: int, c: char)
    requires
        0 <= i <= s.len(),
    ensures
        i + run_len(s, i, c) <= s.len(),
        forall|k: int| i <= k < i + run_len(s, i, c) ==> s[k] == c,
    decreases s.len() - i,
{
    if i < s.len() && s[i] == c {
        lemma_run_len(s, i + 1, c);
    }
}

} // verus!
