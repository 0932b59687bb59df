//! The document parser: front matter, block detection, and the contents of
//! each block, parsed again where a block holds a nested document.
use vstd::prelude::*;
use crate::markdown::ast::{
    Block,
    BlockModel,
    DocModel,
    Inline,
    InlineModel,
    ItemModel,
    ListItem,
    ListMarker,
    MarkdownDoc,
    TableAlign,
    block_models,
    item_models,
    lemma_block_models_push,
    lemma_footnote_model,
    lemma_quote_model,
    models,
    opt_view,
    row_models,
};
use crate::markdown::block::{
    BlockKind,
    BlockSlice,
    KindModel,
    blank,
    blocks_from,
    blocks_model,
    block_step,
    cell_end,
    detect_blocks_chars,
    find_pair,
    footnote_label,
    lemma_block_step,
    list_marker,
    quote_line,
    quote_scan,
    run_len,
    slice_models,
};
use crate::markdown::block::{find_pair_at, is_blank, lemma_find_pair, list_marker_of, run_length};
use crate::markdown::inline::{
    find_char,
    find_closing_single,
    inline_model,
    lemma_find_char,
    parse_inline_chars,
};
use crate::text::{
    chars_of,
    lines,
    lines_from,
    line_piece,
    next_nl,
    push_all,
    split_lines_chars,
    string_from_chars,
    trim,
    trim_chars,
    trim_start,
    trim_start_chars,
    views,
};

verus! {

/// Lines joined with `'\n'` between them (`[&str]::join("\n")`).
pub open spec fn join(ls: Seq<Seq<char>>) -> Seq<char>
    decreases ls.len(),
{
    if ls.len() == 0 {
        seq![]
    } else if ls.len() == 1 {
        ls[0]
    } else {
        ls[0] + seq!['\n'] + join(ls.drop_first())
    }
}

/// First `k >= i` where `---` starts.
pub open spec fn find_dashes(s: Seq<char>, i: int) -> Option<int>
    decreases s.len() - i,
{
    if i < 0 || i + 2 >= s.len() {
        None
    } else if s[i] == '-' && s[i + 1] == '-' && s[i + 2] == '-' {
        Some(i)
    } else {
        find_dashes(s, i + 1)
    }
}

/// Front matter between a leading `---` and the next `---`, and the body
/// after it; no front matter when either is missing.
pub open spec fn split_fm(input: Seq<char>) -> (Option<Seq<char>>, Seq<char>) {
    let t = trim_start(input);
    if t.len() >= 3 && t[0] == '-' && t[1] == '-' && t[2] == '-' {
        let rest = t.skip(3);
        match find_dashes(rest, 0) {
            Some(e) => (Some(trim(rest.take(e))), trim_start(rest.skip(e + 3))),
            None => (None, input),
        }
    } else {
        (None, input)
    }
}

/// A line that opens or closes a fence.
pub open spec fn fence_line(l: Seq<char>) -> bool {
    let t = trim(l);
    t.len() >= 3 && (t[0] == '`' || t[0] == '~') && t[1] == t[0] && t[2] == t[0]
}

/// The line with a leading `> ` or `>` removed.
pub open spec fn strip_quote(l: Seq<char>) -> Seq<char> {
    if l.len() >= 2 && l[0] == '>' && l[1] == ' ' {
        l.skip(2)
    } else if l.len() >= 1 && l[0] == '>' {
        l.skip(1)
    } else {
        l
    }
}

/// The lines `a..=b` with their quote markers removed.
pub open spec fn quote_lines(ls: Seq<Seq<char>>, a: int, b: int) -> Seq<Seq<char>> {
    Seq::new((b - a + 1) as nat, |k: int| strip_quote(ls[a + k]))
}

/// Text of a list item line after its marker.
pub open spec fn list_text(l: Seq<char>) -> Seq<char> {
    let t = trim_start(l);
    match find_char(t, 0, ' ') {
        Some(p) => t.skip(p + 1),
        None => match find_pair(t, 0, '.', ' ') {
            Some(p) => t.skip(p + 2),
            None => t,
        },
    }
}

/// First line at or after `k` (up to `end`) that is a list item or blank.
pub open spec fn item_scan(ls: Seq<Seq<char>>, k: int, end: int) -> int
    decreases end + 1 - k,
{
    if 0 <= k <= end && k < ls.len() && list_marker(ls[k]) is None && !blank(ls[k]) {
        item_scan(ls, k + 1, end)
    } else {
        k
    }
}

/// The list items among the lines `i..=end`.
pub open spec fn items_from(ls: Seq<Seq<char>>, i: int, end: int) -> Seq<ItemModel>
    decreases end + 1 - i,
{
    if i < 0 || i > end || i >= ls.len() {
        seq![]
    } else {
        match list_marker(ls[i]) {
            Some(m) => {
                proof {
                    lemma_item_scan(ls, i + 1, end);
                }
                seq![
                    ItemModel {
                        marker: m,
                        children: inline_model(list_text(ls[i])),
                        sub_items: seq![],
                    },
                ] + items_from(ls, item_scan(ls, i + 1, end), end)
            },
            None => items_from(ls, i + 1, end),
        }
    }
}

/// Number of `|` at the end of `u.take(j)`, removed.
pub open spec fn strip_back_pipes(u: Seq<char>, j: int) -> int
    decreases j,
{
    if 0 < j <= u.len() && u[j - 1] == '|' {
        strip_back_pipes(u, j - 1)
    } else {
        j
    }
}

/// `str::trim_matches('|')`.
pub open spec fn trim_pipes(t: Seq<char>) -> Seq<char> {
    let u = t.skip(run_len(t, 0, '|') as int);
    u.take(strip_back_pipes(u, u.len() as int))
}

/// The pieces of `t` from `i` on, split at `|`.
pub open spec fn split_from(t: Seq<char>, i: int) -> Seq<Seq<char>>
    decreases t.len() + 1 - i,
{
    if i < 0 || i > t.len() {
        seq![]
    } else {
        proof {
            lemma_find_char(t, i, '|');
        }
        let e = cell_end(t, i);
        seq![t.subrange(i, e)] + if e < t.len() {
            split_from(t, e + 1)
        } else {
            seq![]
        }
    }
}

/// The cells of a table row.
pub open spec fn row_cells(l: Seq<char>) -> Seq<Seq<char>> {
    split_from(trim_pipes(trim(l)), 0)
}

/// The inline contents of the cells of a table row.
pub open spec fn row_model(l: Seq<char>) -> Seq<Seq<InlineModel>> {
    let cs = row_cells(l);
    Seq::new(cs.len(), |k: int| inline_model(trim(cs[k])))
}

/// Alignment written in a separator cell.
pub open spec fn align_of(c: Seq<char>) -> Option<TableAlign> {
    if c.len() > 0 && c[0] == ':' && c[c.len() - 1] == ':' {
        Some(TableAlign::Center)
    } else if c.len() > 0 && c[c.len() - 1] == ':' {
        Some(TableAlign::Right)
    } else if c.len() > 0 && c[0] == ':' {
        Some(TableAlign::Left)
    } else {
        None
    }
}

/// The alignments of a separator row.
pub open spec fn aligns_model(l: Seq<char>) -> Seq<Option<TableAlign>> {
    let cs = row_cells(l);
    Seq::new(cs.len(), |k: int| align_of(trim(cs[k])))
}

/// Text of a footnote definition: what follows `]:` on its first line,
/// trimmed, and the lines after it.
pub open spec fn footnote_text(ls: Seq<Seq<char>>, a: int, b: int) -> Seq<char> {
    let first = ls[a];
    let rest = match find_pair(first, 0, ']', ':') {
        Some(p) => first.skip(p + 2),
        None => seq![],
    };
    trim(rest) + if b > a {
        seq!['\n'] + join(ls.subrange(a + 1, b + 1))
    } else {
        seq![]
    }
}

/// Code of a fenced block on lines `a..=b`: the lines between the fences;
/// neither fence line is ever part of the code.
pub open spec fn code_text(ls: Seq<Seq<char>>, a: int, b: int) -> Seq<char> {
    let n = ls.len() as int;
    let code_start = a + 1;
    let code_end = if b > a {
        b
    } else {
        a + 1
    };
    let actual_end = if code_end < n && fence_line(ls[code_end]) {
        code_end
    } else {
        code_end + 1
    };
    if code_start < actual_end && code_start < n {
        join(
            ls.subrange(
                code_start,
                if actual_end < n {
                    actual_end
                } else {
                    n
                },
            ),
        )
    } else {
        seq![]
    }
}

/// The document parsed from `input`.
pub open spec fn doc_model(input: Seq<char>) -> DocModel
    decreases input.len(), 1int,
{
    let (fm, body) = split_fm(input);
    let ls = lines(body);
    let sl = blocks_model(ls);
    DocModel { frontmatter: fm, blocks: Seq::new(sl.len(), |k: int| block_model(input, ls, sl[k])) }
}

/// The block built from the lines `x.0..=x.1` of `ls` as kind `x.2`; a
/// nested document is parsed only when its text is shorter than `input`,
/// which the parser's own blocks always are.
pub open spec fn block_model(input: Seq<char>, ls: Seq<Seq<char>>, x: (int, int, KindModel)) -> BlockModel
    decreases input.len(), 0int,
{
    let (a, b, kind) = x;
    match kind {
        KindModel::Heading(level) => {
            let t = trim_start(ls[a]);
            BlockModel::Heading(
                level,
                inline_model(trim_start(t.skip(run_len(t, 0, '#') as int))),
            )
        },
        KindModel::Paragraph => BlockModel::Paragraph(inline_model(join(ls.subrange(a, b + 1)))),
        KindModel::CodeBlock(lang) => BlockModel::CodeBlock(lang, code_text(ls, a, b)),
        KindModel::List(_) => BlockModel::List(items_from(ls, a, b)),
        KindModel::BlockQuote => {
            let inner = join(quote_lines(ls, a, b));
            if inner.len() < input.len() {
                BlockModel::BlockQuote(doc_model(inner).blocks)
            } else {
                BlockModel::BlockQuote(seq![])
            }
        },
        KindModel::Table => BlockModel::Table(
            row_model(ls[a]),
            aligns_model(ls[a + 1]),
            Seq::new((b - a - 1) as nat, |k: int| row_model(ls[a + 2 + k])),
        ),
        KindModel::ThematicBreak => BlockModel::ThematicBreak,
        KindModel::MathBlock => BlockModel::MathBlock(
            if b > a + 1 {
                join(ls.subrange(a + 1, b))
            } else {
                seq![]
            },
        ),
        KindModel::HtmlBlock => BlockModel::HtmlBlock(join(ls.subrange(a, b + 1))),
        KindModel::FootnoteDef(label) => {
            let inner = footnote_text(ls, a, b);
            if inner.len() < input.len() {
                BlockModel::FootnoteDefinition(label, doc_model(inner).blocks)
            } else {
                BlockModel::FootnoteDefinition(label, seq![])
            }
        },
    }
}

// ---------------------------------------------------------------------------
// Facts about the models.
pub proof fn lemma_item_scan(ls: Seq<Seq<char>>, k: int, end: int)
    requires
        0 <= k,
    ensures
        k <= item_scan(ls, k, end),
        item_scan(ls, k, end) <= end + 1 || item_scan(ls, k, end) == k,
        forall|q: int|
            k <= q < item_scan(ls, k, end) ==> list_marker(#[trigger] ls[q]) is None && q
                < ls.len(),
    decreases end + 1 - k,
{
    if 0 <= k <= end && k < ls.len() && list_marker(ls[k]) is None && !blank(ls[k]) {
        lemma_item_scan(ls, k + 1, end);
    }
}

/// Joining one more line adds a line break and that line.
pub proof fn lemma_join_push(ls: Seq<Seq<char>>, x: Seq<char>)
    requires
        ls.len() >= 1,
    ensures
        join(ls.push(x)) == join(ls) + seq!['\n'] + x,
    decreases ls.len(),
{
    let l2 = ls.push(x);
    if ls.len() == 1 {
        assert(l2.drop_first() =~= seq![x]);
        assert(join(seq![x]) == x);
        assert(join(l2) == ls[0] + seq!['\n'] + x);
    } else {
        assert(l2.drop_first() =~= ls.drop_first().push(x));
        lemma_join_push(ls.drop_first(), x);
        assert(join(l2) == ls[0] + seq!['\n'] + join(ls.drop_first().push(x)));
        assert(join(ls) == ls[0] + seq!['\n'] + join(ls.drop_first()));
        assert(join(l2) =~= join(ls) + seq!['\n'] + x);
    }
}

/// Lines that are each shorter join to a shorter text.
pub proof fn lemma_join_shorter(p: Seq<Seq<char>>, q: Seq<Seq<char>>)
    requires
        p.len() == q.len(),
        p.len() >= 1,
        forall|k: int| 0 <= k < p.len() ==> #[trigger] p[k].len() < q[k].len(),
    ensures
        join(p).len() < join(q).len(),
    decreases p.len(),
{
    if p.len() > 1 {
        assert forall|k: int| 0 <= k < p.drop_first().len() implies #[trigger] p.drop_first()[
            k
        ].len() < q.drop_first()[k].len() by {
            assert(p.drop_first()[k] == p[k + 1]);
            assert(q.drop_first()[k] == q[k + 1]);
        }
        lemma_join_shorter(p.drop_first(), q.drop_first());
    } else {
        assert(p[0].len() < q[0].len());
    }
}

/// The lines of `s[i..]`, joined in any contiguous run, are no longer than
/// `s[i..]`.
pub proof fn lemma_join_lines(s: Seq<char>, i: int, a: int, b: int)
    requires
        0 <= i <= s.len(),
        0 <= a <= b <= lines_from(s, i).len(),
    ensures
        join(lines_from(s, i).subrange(a, b)).len() <= s.len() - i,
    decreases s.len() + 1 - i,
{
    let l = lines_from(s, i);
    if i >= s.len() {
        assert(l.subrange(a, b) =~= Seq::<Seq<char>>::empty());
    } else {
        let j = next_nl(s, i);
        crate::text::lemma_next_nl_bounds(s, i);
        let rest = lines_from(s, j + 1);
        assert(l == seq![line_piece(s, i, j)] + rest);
        let p = line_piece(s, i, j);
        assert(p.len() <= j - i);
        if a >= 1 {
            assert(l.subrange(a, b) =~= rest.subrange(a - 1, b - 1));
            if j < s.len() {
                lemma_join_lines(s, j + 1, a - 1, b - 1);
            } else {
                assert(rest =~= Seq::<Seq<char>>::empty());
                assert(l.subrange(a, b) =~= Seq::<Seq<char>>::empty());
            }
        } else if b == 0 {
            assert(l.subrange(a, b) =~= Seq::<Seq<char>>::empty());
        } else if b == 1 {
            assert(l.subrange(a, b) =~= seq![p]);
            assert(join(seq![p]) == p);
        } else {
            assert(j < s.len()) by {
                if j >= s.len() {
                    assert(rest =~= Seq::<Seq<char>>::empty());
                }
            }
            let sub = l.subrange(a, b);
            assert(sub.drop_first() =~= rest.subrange(0, b - 1));
            assert(sub[0] == p);
            lemma_join_lines(s, j + 1, 0, b - 1);
            assert(join(sub) == p + seq!['\n'] + join(sub.drop_first()));
        }
    }
}

pub proof fn lemma_trim_len(s: Seq<char>)
    ensures
        trim_start(s).len() <= s.len(),
        trim(s).len() <= s.len(),
{
    crate::text::lemma_skip_ws_bounds(s, 0);
    let t = trim_start(s);
    crate::text::lemma_back_ws_bounds(t, t.len() as int);
}

/// The body after the front matter is no longer than the input.
pub proof fn lemma_split_fm(input: Seq<char>)
    ensures
        split_fm(input).1.len() <= input.len(),
{
    lemma_trim_len(input);
    let t = trim_start(input);
    if t.len() >= 3 {
        let rest = t.skip(3);
        if let Some(e) = find_dashes(rest, 0) {
            lemma_find_dashes(rest, 0);
            lemma_trim_len(rest.skip(e + 3));
        }
    }
}

pub proof fn lemma_find_dashes(s: Seq<char>, i: int)
    ensures
        find_dashes(s, i) matches Some(e) ==> i <= e && e + 3 <= s.len(),
    decreases s.len() - i,
{
    if !(i < 0 || i + 2 >= s.len()) && !(s[i] == '-' && s[i + 1] == '-' && s[i + 2] == '-') {
        lemma_find_dashes(s, i + 1);
    }
}

/// A block slice as detection yields it: in range, and with what its kind
/// promises of its lines.
pub open spec fn slice_ok(ls: Seq<Seq<char>>, x: (int, int, KindModel)) -> bool {
    let (a, b, kind) = x;
    &&& 0 <= a <= b < ls.len()
    &&& kind is BlockQuote ==> forall|q: int| a <= q <= b ==> quote_line(#[trigger] ls[q])
    &&& kind is Table ==> b >= a + 1
    &&& kind is FootnoteDef ==> footnote_label(ls[a]) is Some
    &&& kind is List ==> list_marker(ls[a]) is Some
}

pub proof fn lemma_quote_scan(ls: Seq<Seq<char>>, j: int)
    requires
        0 <= j <= ls.len(),
    ensures
        forall|q: int| j <= q < quote_scan(ls, j) ==> quote_line(#[trigger] ls[q]),
    decreases ls.len() - j,
{
    if j < ls.len() && quote_line(ls[j]) {
        lemma_quote_scan(ls, j + 1);
    }
}

/// Every block that detection yields is well formed.
pub proof fn lemma_slices_ok(ls: Seq<Seq<char>>, i: int)
    requires
        0 <= i,
    ensures
        forall|k: int|
            0 <= k < blocks_from(ls, i).len() ==> slice_ok(ls, #[trigger] blocks_from(ls, i)[k]),
    decreases ls.len() - i,
{
    if i < ls.len() {
        lemma_block_step(ls, i);
        let (b, nx) = block_step(ls, i);
        lemma_slices_ok(ls, nx);
        lemma_quote_scan(ls, i);
        if i + 2 <= ls.len() {
            crate::markdown::block::lemma_scans(ls, i + 2, ' ');
        }
        if let Some(x) = b {
            assert(slice_ok(ls, x));
            let r = blocks_from(ls, i);
            assert(r == seq![x] + blocks_from(ls, nx));
            assert forall|k: int| 0 <= k < r.len() implies slice_ok(ls, #[trigger] r[k]) by {
                if k > 0 {
                    assert(r[k] == blocks_from(ls, nx)[k - 1]);
                }
            }
        }
    }
}

/// Text that a block parses again as a document is shorter than the
/// document's lines.
pub proof fn lemma_nested_shorter(ls: Seq<Seq<char>>, x: (int, int, KindModel))
    requires
        slice_ok(ls, x),
    ensures
        x.2 is BlockQuote ==> join(quote_lines(ls, x.0, x.1)).len() < join(
            ls.subrange(x.0, x.1 + 1),
        ).len(),
        x.2 is FootnoteDef ==> footnote_text(ls, x.0, x.1).len() < join(
            ls.subrange(x.0, x.1 + 1),
        ).len(),
{
    let (a, b, kind) = x;
    if kind is BlockQuote {
        let p = quote_lines(ls, a, b);
        let q = ls.subrange(a, b + 1);
        assert forall|k: int| 0 <= k < p.len() implies #[trigger] p[k].len() < q[k].len() by {
            assert(quote_line(ls[a + k]));
            assert(q[k] == ls[a + k]);
        }
        lemma_join_shorter(p, q);
    }
    if kind is FootnoteDef {
        let first = ls[a];
        let q = ls.subrange(a, b + 1);
        lemma_trim_len(first);
        assert(trim(first).len() >= 2);
        let rest = match find_pair(first, 0, ']', ':') {
            Some(p) => first.skip(p + 2),
            None => seq![],
        };
        crate::markdown::block::lemma_find_pair(first, 0, ']', ':');
        lemma_trim_len(rest);
        assert(rest.len() < first.len());
        if b > a {
            assert(q.drop_first() =~= ls.subrange(a + 1, b + 1));
            assert(q[0] == first);
        } else {
            assert(q =~= seq![first]);
        }
    }
}

/// The lines of `ls`, joined in any contiguous run, fit in `len` characters.
pub open spec fn joins_fit(ls: Seq<Seq<char>>, len: int) -> bool {
    forall|a: int, b: int|
        0 <= a <= b <= ls.len() ==> #[trigger] join(ls.subrange(a, b)).len() <= len
}

/// `trim_start` leaves nothing more to trim.
pub proof fn lemma_trim_start_idem(l: Seq<char>)
    ensures
        trim_start(trim_start(l)) == trim_start(l),
{
    crate::text::lemma_skip_ws_bounds(l, 0);
    let t = trim_start(l);
    assert(t.skip(0) =~= t);
}

/// `ls[a..b].join("\n")`.
fn join_range(ls: &[Vec<char>], a: usize, b: usize) -> (r: Vec<char>)
    requires
        a <= b <= ls@.len(),
    ensures
        r@ == join(views(ls@).subrange(a as int, b as int)),
{
    let mut r: Vec<char> = Vec::new();
    let mut k = a;
    while k < b
        invariant
            a <= k <= b,
            b <= ls@.len(),
            r@ == join(views(ls@).subrange(a as int, k as int)),
        decreases b - k,
    {
        let ghost prev = views(ls@).subrange(a as int, k as int);
        let ghost x = ls@[k as int]@;
        if k > a {
            r.push('\n');
        }
        push_all(&mut r, ls[k].as_slice());
        proof {
            let next = views(ls@).subrange(a as int, k + 1);
            assert(next =~= prev.push(x));
            if k > a {
                lemma_join_push(prev, x);
            } else {
                assert(next =~= seq![x]);
                assert(join(next) == x);
            }
            assert(r@ =~= join(next));
        }
        k += 1;
    }
    r
}

/// First `---` at or after `i`.
fn find_dashes_at(s: &[char], i: usize) -> (r: Option<usize>)
    ensures
        match r {
            Some(e) => find_dashes(s@, i as int) == Some(e as int),
            None => find_dashes(s@, i as int) is None,
        },
{
    let mut j = i;
    while j < s.len() && s.len() - j > 2
        invariant
            i <= j,
            find_dashes(s@, i as int) == find_dashes(s@, j as int),
        decreases s@.len() - j,
    {
        if s[j] == '-' && s[j + 1] == '-' && s[j + 2] == '-' {
            return Some(j);
        }
        j += 1;
    }
    None
}

/// Splits off YAML front matter delimited by `---` lines.
fn split_frontmatter(input: &[char]) -> (r: (Option<String>, Vec<char>))
    ensures
        opt_view(r.0) == split_fm(input@).0,
        r.1@ == split_fm(input@).1,
{
    let t = trim_start_chars(input);
    if !(t.len() >= 3 && t[0] == '-' && t[1] == '-' && t[2] == '-') {
        return (None, vstd::slice::slice_to_vec(input));
    }
    let rest = vstd::slice::slice_subrange(t.as_slice(), 3, t.len());
    let end_idx = match find_dashes_at(rest, 0) {
        Some(e) => e,
        None => return (None, vstd::slice::slice_to_vec(input)),
    };
    proof {
        lemma_find_dashes(rest@, 0);
        assert(rest@ =~= t@.skip(3));
    }
    let yaml = trim_chars(vstd::slice::slice_subrange(rest, 0, end_idx));
    let body = trim_start_chars(vstd::slice::slice_subrange(rest, end_idx + 3, rest.len()));
    proof {
        assert(rest@.subrange(0, end_idx as int) =~= rest@.take(end_idx as int));
        assert(rest@.subrange(end_idx + 3, rest@.len() as int) =~= rest@.skip(end_idx + 3));
    }
    (Some(string_from_chars(yaml.as_slice())), body)
}

/// A line that opens or closes a fence.
fn is_fence_line(line: &[char]) -> (r: bool)
    ensures
        r == fence_line(line@),
{
    let t = trim_chars(line);
    t.len() >= 3 && ((t[0] == '`' && t[1] == '`' && t[2] == '`') || (t[0] == '~' && t[1] == '~'
        && t[2] == '~'))
}

/// Text of a list item line after its marker.
fn extract_list_text(line: &[char]) -> (r: Vec<char>)
    ensures
        r@ == list_text(line@),
{
    let trimmed = trim_start_chars(line);
    let t = trimmed.as_slice();
    let n = t.len();
    if let Some(pos) = find_closing_single(t, 0, ' ') {
        proof {
            lemma_find_char(t@, 0, ' ');
        }
        vstd::slice::slice_to_vec(vstd::slice::slice_subrange(t, pos + 1, t.len()))
    } else if let Some(pos) = find_pair_at(t, 0, '.', ' ') {
        proof {
            lemma_find_pair(t@, 0, '.', ' ');
        }
        vstd::slice::slice_to_vec(vstd::slice::slice_subrange(t, pos + 2, t.len()))
    } else {
        trimmed
    }
}

/// The list items among the lines `start..=end`.
fn parse_list_items(lines: &[Vec<char>], start: usize, end: usize) -> (r: Vec<ListItem>)
    requires
        start <= end + 1,
        end < lines@.len(),
    ensures
        item_models(r@) == items_from(views(lines@), start as int, end as int),
    decreases end + 1 - start,
{
    let ghost ls = views(lines@);
    let mut items: Vec<ListItem> = Vec::new();
    let mut i = start;
    while i <= end
        invariant
            start <= i <= end + 1,
            end < lines@.len(),
            ls == views(lines@),
            item_models(items@) + items_from(ls, i as int, end as int) == items_from(
                ls,
                start as int,
                end as int,
            ),
        decreases end + 1 - i,
    {
        let line = lines[i].as_slice();
        if let Some(marker) = list_marker_of(line) {
            let text = extract_list_text(line);
            let children = parse_inline_chars(text.as_slice());
            let mut item_end = i + 1;
            while item_end <= end
                invariant
                    i < item_end <= end + 1,
                    end < lines@.len(),
                    ls == views(lines@),
                    item_scan(ls, item_end as int, end as int) == item_scan(ls, i + 1, end as int),
                ensures
                    i < item_end <= end + 1,
                    item_end == item_scan(ls, i + 1, end as int),
                decreases end + 1 - item_end,
            {
                let next = lines[item_end].as_slice();
                if list_marker_of(next).is_some() {
                    break;
                }
                if is_blank(next) {
                    break;
                }
                item_end += 1;
            }
            proof {
                lemma_item_scan(ls, i + 1, end as int);
            }
            let mut sub_items: Vec<ListItem> = Vec::new();
            let mut j = i + 1;
            while j < item_end
                invariant
                    i < j <= item_end <= end + 1,
                    end < lines@.len(),
                    ls == views(lines@),
                    item_end == item_scan(ls, i + 1, end as int),
                    forall|q: int|
                        i + 1 <= q < item_end ==> list_marker(#[trigger] ls[q]) is None,
                    sub_items@.len() == 0,
                decreases item_end - j,
            {
                let next = lines[j].as_slice();
                let indented = (next.len() >= 2 && next[0] == ' ' && next[1] == ' ') || (next.len()
                    >= 1 && next[0] == '\t');
                if indented {
                    let inner = trim_start_chars(next);
                    if list_marker_of(inner.as_slice()).is_some() {
                        proof {
                            lemma_trim_start_idem(ls[j as int]);
                            assert(list_marker(ls[j as int]) is None);
                            assert(false);
                        }
                        let sub_start = j;
                        while j < item_end
                            invariant
                                sub_start <= j <= item_end <= end + 1,
                                end < lines@.len(),
                            decreases item_end - j,
                        {
                            let cur = lines[j].as_slice();
                            let cur_inner = trim_start_chars(cur);
                            if list_marker_of(cur_inner.as_slice()).is_some() || (cur.len() >= 2
                                && cur[0] == ' ' && cur[1] == ' ') || (cur.len() >= 1 && cur[0]
                                == '\t') {
                                j += 1;
                            } else {
                                break;
                            }
                        }
                        let mut sub = parse_list_items(lines, sub_start, j - 1);
                        sub_items.append(&mut sub);
                        continue;
                    }
                }
                j += 1;
            }
            let ghost before = item_models(items@);
            let item = ListItem { marker, children, sub_items };
            proof {
                assert(lines@[i as int]@ == ls[i as int]);
                assert(item.view().marker == marker);
                assert(item.view().children == inline_model(list_text(ls[i as int])));
                assert(item.view().sub_items =~= seq![]);
                assert(item.view() =~= ItemModel {
                    marker,
                    children: inline_model(list_text(ls[i as int])),
                    sub_items: seq![],
                });
            }
            items.push(item);
            proof {
                assert(item_models(items@) =~= before.push(item.view()));
                assert(items_from(ls, i as int, end as int) =~= seq![item.view()] + items_from(
                    ls,
                    item_end as int,
                    end as int,
                ));
                assert(item_models(items@) + items_from(ls, item_end as int, end as int) =~= before
                    + items_from(ls, i as int, end as int));
            }
            i = item_end;
        } else {
            i += 1;
        }
    }
    proof {
        assert(items_from(ls, i as int, end as int) =~= seq![]);
        assert(item_models(items@) + seq![] =~= item_models(items@));
    }
    items
}

/// The pieces of `t`, split at `|`.
fn split_pipes(t: &[char]) -> (r: Vec<Vec<char>>)
    ensures
        views(r@) == split_from(t@, 0),
{
    let n = t.len();
    let mut r: Vec<Vec<char>> = Vec::new();
    let mut i: usize = 0;
    loop
        invariant
            i <= n,
            n == t@.len(),
            views(r@) + split_from(t@, i as int) == split_from(t@, 0),
        decreases n - i,
    {
        let e = match find_closing_single(t, i, '|') {
            Some(e) => e,
            None => n,
        };
        proof {
            lemma_find_char(t@, i as int, '|');
        }
        let ghost before = views(r@);
        r.push(vstd::slice::slice_to_vec(vstd::slice::slice_subrange(t, i, e)));
        proof {
            assert(views(r@) =~= before.push(t@.subrange(i as int, e as int)));
        }
        if e >= n {
            proof {
                assert(split_from(t@, i as int) =~= seq![t@.subrange(i as int, e as int)]);
                assert(views(r@) =~= before + split_from(t@, i as int));
            }
            return r;
        }
        proof {
            assert(views(r@) + split_from(t@, e + 1) =~= before + split_from(t@, i as int));
        }
        i = e + 1;
    }
}

/// The cells of a table row, before their contents are parsed.
fn table_cells(line: &[char]) -> (r: Vec<Vec<char>>)
    ensures
        views(r@) == row_cells(line@),
{
    let t = trim_chars(line);
    let lead = run_length(t.as_slice(), 0, '|');
    let u = vstd::slice::slice_subrange(t.as_slice(), lead, t.len());
    let mut back = u.len();
    while back > 0 && u[back - 1] == '|'
        invariant
            back <= u@.len(),
            strip_back_pipes(u@, back as int) == strip_back_pipes(u@, u@.len() as int),
        decreases back,
    {
        back -= 1;
    }
    let inner = vstd::slice::slice_subrange(u, 0, back);
    proof {
        assert(u@ =~= t@.skip(lead as int));
        assert(inner@ =~= u@.take(back as int));
    }
    split_pipes(inner)
}

/// The inline contents of the cells of a table row.
fn parse_table_row(line: &[char]) -> (r: Vec<Vec<Inline>>)
    ensures
        row_models(r@) == row_model(line@),
{
    let cells = table_cells(line);
    let ghost cs = row_cells(line@);
    let mut r: Vec<Vec<Inline>> = Vec::new();
    let mut k: usize = 0;
    while k < cells.len()
        invariant
            k <= cells@.len(),
            views(cells@) == cs,
            r@.len() == k,
            forall|q: int| 0 <= q < k ==> #[trigger] models(r@[q]@) == inline_model(trim(cs[q])),
        decreases cells@.len() - k,
    {
        let cell = trim_chars(cells[k].as_slice());
        proof {
            assert(cells@[k as int]@ == cs[k as int]);
        }
        r.push(parse_inline_chars(cell.as_slice()));
        k += 1;
    }
    proof {
        assert(row_models(r@) =~= row_model(line@));
    }
    r
}

/// The alignments written in a separator row.
fn parse_table_aligns(line: &[char]) -> (r: Vec<Option<TableAlign>>)
    ensures
        r@ == aligns_model(line@),
{
    let cells = table_cells(line);
    let ghost cs = row_cells(line@);
    let mut r: Vec<Option<TableAlign>> = Vec::new();
    let mut k: usize = 0;
    while k < cells.len()
        invariant
            k <= cells@.len(),
            views(cells@) == cs,
            r@.len() == k,
            forall|q: int| 0 <= q < k ==> #[trigger] r@[q] == align_of(trim(cs[q])),
        decreases cells@.len() - k,
    {
        let cell = trim_chars(cells[k].as_slice());
        proof {
            assert(cells@[k as int]@ == cs[k as int]);
        }
        let n = cell.len();
        let a = if n > 0 && cell[0] == ':' && cell[n - 1] == ':' {
            Some(TableAlign::Center)
        } else if n > 0 && cell[n - 1] == ':' {
            Some(TableAlign::Right)
        } else if n > 0 && cell[0] == ':' {
            Some(TableAlign::Left)
        } else {
            None
        };
        r.push(a);
        k += 1;
    }
    proof {
        assert(r@ =~= aligns_model(line@));
    }
    r
}

/// A table from the lines `start..=end`: header row, separator, data rows.
fn parse_table(lines: &[Vec<char>], start: usize, end: usize) -> (r: Block)
    requires
        start + 1 <= end < lines@.len(),
    ensures
        r.view() == block_model(seq![], views(lines@), (start as int, end as int, KindModel::Table)),
{
    let ghost ls = views(lines@);
    let headers = parse_table_row(lines[start].as_slice());
    let aligns = parse_table_aligns(lines[start + 1].as_slice());
    let mut rows: Vec<Vec<Vec<Inline>>> = Vec::new();
    let mut q = start + 2;
    while q <= end
        invariant
            start + 2 <= q <= end + 1,
            end < lines@.len(),
            ls == views(lines@),
            rows@.len() == q - start - 2,
            forall|p: int|
                0 <= p < rows@.len() ==> #[trigger] row_models(rows@[p]@) == row_model(
                    ls[start + 2 + p],
                ),
        decreases end + 1 - q,
    {
        rows.push(parse_table_row(lines[q].as_slice()));
        q += 1;
    }
    let r = Block::Table { headers, aligns, rows };
    proof {
        assert(lines@[start as int]@ == ls[start as int]);
        assert(r.view() =~= block_model(seq![], ls, (start as int, end as int, KindModel::Table)));
    }
    r
}

/// The block for one slice of the document's lines.
#[verifier::spinoff_prover]
#[verifier::rlimit(60)]
fn build_block(lines: &[Vec<char>], slice: &BlockSlice, Ghost(input): Ghost<Seq<char>>) -> (r:
    Block)
    requires
        slice_ok(views(lines@), slice.view()),
        joins_fit(views(lines@), input.len() as int),
    ensures
        r.view() == block_model(input, views(lines@), slice.view()),
    decreases input.len(), 0int,
{
    let ghost ls = views(lines@);
    let n = lines.len();
    let a = slice.start;
    let b = slice.end;
    proof {
        lemma_nested_shorter(ls, slice.view());
        assert(join(ls.subrange(a as int, b + 1)).len() <= input.len());
        assert(lines@[a as int]@ == ls[a as int]);
    }
    match &slice.kind {
        BlockKind::Heading { level } => {
            let line = trim_start_chars(lines[a].as_slice());
            let k = run_length(line.as_slice(), 0, '#');
            let text = trim_start_chars(vstd::slice::slice_subrange(line.as_slice(), k, line.len()));
            let children = parse_inline_chars(text.as_slice());
            proof {
                assert(line@.subrange(k as int, line@.len() as int) =~= line@.skip(k as int));
            }
            Block::Heading { level: *level, children }
        },
        BlockKind::Paragraph => {
            let text = join_range(lines, a, b + 1);
            Block::Paragraph(parse_inline_chars(text.as_slice()))
        },
        BlockKind::CodeBlock { language } => {
            let code_start = a + 1;
            let code_end = if b > a {
                b
            } else {
                a + 1
            };
            let stop = if code_end < n && is_fence_line(lines[code_end].as_slice()) {
                code_end
            } else if code_end < n {
                code_end + 1
            } else {
                n
            };
            let code = if code_start < n {
                join_range(lines, code_start, stop)
            } else {
                Vec::new()
            };
            let lang = match language {
                Some(l) => Some(l.clone()),
                None => None,
            };
            proof {
                if code_end < n {
                    assert(lines@[code_end as int]@ == ls[code_end as int]);
                }
                assert(code@ == code_text(ls, a as int, b as int));
            }
            Block::CodeBlock { language: lang, code: string_from_chars(code.as_slice()) }
        },
        BlockKind::List { first_marker: _ } => {
            let items = parse_list_items(lines, a, b);
            Block::List { items }
        },
        BlockKind::BlockQuote => {
            let mut quoted: Vec<Vec<char>> = Vec::new();
            let mut q = a;
            while q <= b
                invariant
                    a <= q <= b + 1,
                    b < lines@.len(),
                    ls == views(lines@),
                    quoted@.len() == q - a,
                    forall|p: int|
                        0 <= p < quoted@.len() ==> #[trigger] quoted@[p]@ == strip_quote(
                            ls[a + p],
                        ),
                decreases b + 1 - q,
            {
                let l = lines[q].as_slice();
                let stripped = if l.len() >= 2 && l[0] == '>' && l[1] == ' ' {
                    vstd::slice::slice_to_vec(vstd::slice::slice_subrange(l, 2, l.len()))
                } else if l.len() >= 1 && l[0] == '>' {
                    vstd::slice::slice_to_vec(vstd::slice::slice_subrange(l, 1, l.len()))
                } else {
                    vstd::slice::slice_to_vec(l)
                };
                proof {
                    assert(l@ == ls[q as int]);
                    assert(stripped@ =~= strip_quote(ls[q as int]));
                }
                quoted.push(stripped);
                q += 1;
            }
            let inner_text = join_range(quoted.as_slice(), 0, quoted.len());
            proof {
                assert(views(quoted@).subrange(0, quoted@.len() as int) =~= quote_lines(
                    ls,
                    a as int,
                    b as int,
                ));
            }
            let inner_doc = parse_chars(inner_text.as_slice());
            proof {
                lemma_quote_model(inner_doc.blocks);
            }
            Block::BlockQuote(inner_doc.blocks)
        },
        BlockKind::Table => {
            let t = parse_table(lines, a, b);
            proof {
                assert(t.view() == block_model(input, ls, slice.view()));
            }
            t
        },
        BlockKind::ThematicBreak => Block::ThematicBreak,
        BlockKind::MathBlock => {
            let content = if b > a + 1 {
                join_range(lines, a + 1, b)
            } else {
                Vec::new()
            };
            Block::MathBlock { content: string_from_chars(content.as_slice()) }
        },
        BlockKind::HtmlBlock => {
            let content = join_range(lines, a, b + 1);
            Block::HtmlBlock { content: string_from_chars(content.as_slice()) }
        },
        BlockKind::FootnoteDef { label } => {
            let first_line = lines[a].as_slice();
            let first_len = first_line.len();
            let rest: Vec<char> = match find_pair_at(first_line, 0, ']', ':') {
                Some(pos) => {
                    proof {
                        lemma_find_pair(first_line@, 0, ']', ':');
                    }
                    vstd::slice::slice_to_vec(
                        vstd::slice::slice_subrange(first_line, pos + 2, first_line.len()),
                    )
                },
                None => Vec::new(),
            };
            let mut content_text = trim_chars(rest.as_slice());
            if b > a {
                content_text.push('\n');
                let tail = join_range(lines, a + 1, b + 1);
                push_all(&mut content_text, tail.as_slice());
            }
            proof {
                assert(content_text@ =~= footnote_text(ls, a as int, b as int));
            }
            let inner_doc = parse_chars(content_text.as_slice());
            let label_text = label.clone();
            proof {
                lemma_footnote_model(inner_doc.blocks, label_text);
            }
            Block::FootnoteDefinition { label: label_text, content: inner_doc.blocks }
        },
    }
}

/// [`parse`] over characters.
pub fn parse_chars(input: &[char]) -> (r: MarkdownDoc)
    ensures
        r.view() == doc_model(input@),
    decreases input@.len(), 1int,
{
    let (frontmatter, body) = split_frontmatter(input);
    let lines = split_lines_chars(body.as_slice());
    let slices = detect_blocks_chars(lines.as_slice());
    let ghost ls = views(lines@);
    let ghost sl = slice_models(slices@);
    proof {
        lemma_split_fm(input@);
        lemma_slices_ok(ls, 0);
        assert forall|a: int, b: int| 0 <= a <= b <= ls.len() implies #[trigger] join(
            ls.subrange(a, b),
        ).len() <= input@.len() by {
            lemma_join_lines(body@, 0, a, b);
        }
    }
    let mut blocks: Vec<Block> = Vec::new();
    let mut k: usize = 0;
    while k < slices.len()
        invariant
            k <= slices@.len(),
            ls == views(lines@),
            sl == slice_models(slices@),
            sl == blocks_model(ls),
            joins_fit(ls, input@.len() as int),
            forall|q: int| 0 <= q < sl.len() ==> slice_ok(ls, #[trigger] sl[q]),
            blocks@.len() == k,
            forall|q: int|
                0 <= q < k ==> #[trigger] blocks@[q].view() == block_model(input@, ls, sl[q]),
        decreases slices@.len() - k,
    {
        proof {
            assert(sl[k as int] == slices@[k as int].view());
        }
        let blk = build_block(lines.as_slice(), &slices[k], Ghost(input@));
        blocks.push(blk);
        k += 1;
    }
    let r = MarkdownDoc { frontmatter, blocks };
    proof {
        assert(block_models(r.blocks@) =~= doc_model(input@).blocks);
    }
    r
}

/// Parses a Markdown document into its front matter and blocks.
pub fn parse(input: &str) -> (r: MarkdownDoc)
    ensures
        r.view() == doc_model(input@),
{
    let chars = chars_of(input);
    parse_chars(chars.as_slice())
}

} // verus!

verus! {

proof fn lemma_back_ws_past(s: Seq<char>, i: int, j: int)
    requires
        0 <= i < j <= s.len(),
        !crate::text::is_ws(s[i]),
    ensures
        crate::text::back_ws_from(s, j) > i,
    decreases j,
{
    if j - 1 > i && crate::text::is_ws(s[j - 1]) {
        lemma_back_ws_past(s, i, j - 1);
    }
}

/// A line whose first character is not whitespace, and whose character
/// `i` is not either, trims to a text that keeps its first `i + 1`
/// characters.
proof fn lemma_trim_keeps(l: Seq<char>, i: int)
    requires
        0 <= i < l.len(),
        !crate::text::is_ws(l[0]),
        !crate::text::is_ws(l[i]),
    ensures
        trim_start(l) == l,
        trim(l).len() > i,
        forall|q: int| 0 <= q <= i ==> #[trigger] trim(l)[q] == l[q],
{
    assert(crate::text::skip_ws_from(l, 0) == 0);
    assert(l.skip(0) =~= l);
    assert(trim_start(l) == l);
    lemma_back_ws_past(l, i, l.len() as int);
    crate::text::lemma_back_ws_bounds(l, l.len() as int);
    let b = crate::text::back_ws_from(l, l.len() as int);
    assert(trim(l) == l.take(b));
}

/// A non-empty text without a newline is a single line.
proof fn lemma_one_line(s: Seq<char>)
    requires
        s.len() > 0,
        forall|q: int| 0 <= q < s.len() ==> s[q] != '\n',
    ensures
        lines(s) == seq![s],
{
    crate::text::lemma_next_nl_bounds(s, 0);
    let n = s.len() as int;
    assert(next_nl(s, 0) == n);
    assert(line_piece(s, 0, n) =~= s);
    assert(lines_from(s, n + 1) =~= Seq::<Seq<char>>::empty());
    assert(lines(s) =~= seq![s]);
}

proof fn lemma_run_len_at(s: Seq<char>, i: int, e: int, c: char)
    requires
        0 <= i <= e <= s.len(),
        forall|q: int| i <= q < e ==> s[q] == c,
        e == s.len() || s[e] != c,
    ensures
        run_len(s, i, c) == e - i,
    decreases e - i,
{
    if i < e {
        lemma_run_len_at(s, i + 1, e, c);
    }
}

/// The blocks of a document of one line that makes one block.
proof fn lemma_one_block(input: Seq<char>, x: (int, int, KindModel))
    requires
        input.len() > 0,
        !crate::text::is_ws(input[0]),
        input[0] != '-' || input.len() < 2 || input[1] != '-',
        forall|q: int| 0 <= q < input.len() ==> input[q] != '\n',
        block_step(seq![input], 0) == (Some(x), 1int),
    ensures
        doc_model(input) == (DocModel {
            frontmatter: None,
            blocks: seq![block_model(input, seq![input], x)],
        }),
{
    assert(input.skip(0) =~= input);
    assert(trim_start(input) == input);
    assert(split_fm(input) == (None::<Seq<char>>, input));
    lemma_one_line(input);
    let ls = seq![input];
    assert(blocks_from(ls, 1) =~= Seq::<(int, int, KindModel)>::empty());
    assert(blocks_model(ls) =~= seq![x]);
    assert(doc_model(input).blocks =~= seq![block_model(input, ls, x)]);
}

/// A heading line — one to six `#`, a space, and its text — is one
/// heading block of that level whose children are the inline nodes of the
/// text alone: the `#` marker and the space after it are never part of
/// the heading's content. Plain text comes out as itself.
pub proof fn law_heading_line(k: nat, t: Seq<char>)
    requires
        1 <= k <= 6,
        t.len() > 0,
        !crate::text::is_ws(t[0]),
        forall|q: int| 0 <= q < t.len() ==> t[q] != '\n',
    ensures
        doc_model(Seq::new(k, |q: int| '#') + seq![' '] + t) == (DocModel {
            frontmatter: None,
            blocks: seq![BlockModel::Heading(k as u8, inline_model(t))],
        }),
        (forall|q: int| 0 <= q < t.len() ==> !crate::markdown::inline::is_special(#[trigger] t[q]))
            ==> doc_model(Seq::new(k, |q: int| '#') + seq![' '] + t).blocks == seq![
            BlockModel::Heading(k as u8, seq![InlineModel::Text(t)]),
        ],
{
    let h = Seq::new(k, |q: int| '#');
    let l = h + seq![' '] + t;
    let ki = k as int;
    assert(l[0] == '#');
    assert(l[ki] == ' ');
    assert forall|q: int| 0 <= q < l.len() implies l[q] != '\n' by {
        if q > ki {
            assert(l[q] == t[q - ki - 1]);
        }
    }
    lemma_trim_keeps(l, 0);
    assert(!blank(l));
    assert forall|q: int| 0 <= q < ki implies l[q] == '#' by {}
    lemma_run_len_at(l, 0, ki, '#');
    assert(crate::markdown::block::atx_level(l) == Some(k as u8));
    let x = (0int, 0int, KindModel::Heading(k as u8));
    assert(block_step(seq![l], 0) == (Some(x), 1int));
    lemma_one_block(l, x);
    let r = l.skip(ki);
    assert(r =~= seq![' '] + t);
    assert(crate::text::skip_ws_from(r, 1) == 1);
    assert(crate::text::skip_ws_from(r, 0) == 1);
    assert(trim_start(r) =~= t);
    assert(seq![l][0] == l);
    assert(block_model(l, seq![l], x) == BlockModel::Heading(k as u8, inline_model(t)));
    if forall|q: int| 0 <= q < t.len() ==> !crate::markdown::inline::is_special(#[trigger] t[q]) {
        crate::markdown::inline::law_plain_text(t);
    }
}

/// The marker a bullet character stands for.
pub open spec fn bullet_marker(m: char) -> ListMarker {
    if m == '-' {
        ListMarker::Dash
    } else if m == '*' {
        ListMarker::Star
    } else {
        ListMarker::Plus
    }
}

/// A bullet line — `- `, `* ` or `+ ` and its text — is a list of one
/// item with that marker whose children are the inline nodes of the text
/// after the marker: the marker and its space are never part of the item.
/// Plain text comes out as itself.
pub proof fn law_bullet_item_line(m: char, t: Seq<char>)
    requires
        m == '-' || m == '*' || m == '+',
        t.len() > 0,
        !crate::text::is_ws(t[0]),
        t[0] != m,
        forall|q: int| 0 <= q < t.len() ==> t[q] != '\n',
    ensures
        doc_model(seq![m, ' '] + t) == (DocModel {
            frontmatter: None,
            blocks: seq![
                BlockModel::List(
                    seq![ItemModel { marker: bullet_marker(m), children: inline_model(t), sub_items: seq![] }],
                ),
            ],
        }),
        (forall|q: int| 0 <= q < t.len() ==> !crate::markdown::inline::is_special(#[trigger] t[q]))
            ==> doc_model(seq![m, ' '] + t).blocks == seq![
            BlockModel::List(
                seq![
                    ItemModel {
                        marker: bullet_marker(m),
                        children: seq![InlineModel::Text(t)],
                        sub_items: seq![],
                    },
                ],
            ),
        ],
{
    let l = seq![m, ' '] + t;
    assert(l[0] == m);
    assert(l[1] == ' ');
    assert(l[2] == t[0]);
    assert forall|q: int| 0 <= q < l.len() implies l[q] != '\n' by {
        if q >= 2 {
            assert(l[q] == t[q - 2]);
        }
    }
    lemma_trim_keeps(l, 2);
    let tr = trim(l);
    assert(tr[0] == m && tr[2] == t[0]);
    assert(!blank(l));
    lemma_run_len_at(l, 0, 0, '#');
    assert(crate::markdown::block::atx_level(l) is None);
    assert(crate::markdown::block::fence_of(l) is None);
    assert(!crate::markdown::block::math_delim(l)) by {
        if tr == seq!['$', '$'] {
            assert(tr[0] == '$');
        }
    }
    assert(!crate::markdown::block::thematic(l)) by {
        if m == '-' || m == '*' {
            assert(!crate::markdown::block::rule_char(tr[2], tr[0]));
        }
    }
    assert(!quote_line(l));
    assert(list_marker(l) == Some(bullet_marker(m)));
    let ls = seq![l];
    assert(ls[0] == l);
    assert(crate::markdown::block::list_scan(ls, 1) == 1);
    assert(crate::markdown::block::list_scan(ls, 0) == 1);
    let x = (0int, 0int, KindModel::List(bullet_marker(m)));
    assert(block_step(ls, 0) == (Some(x), 1int));
    lemma_one_block(l, x);
    assert(find_char(l, 1, ' ') == Some(1int));
    assert(find_char(l, 0, ' ') == Some(1int));
    assert(l.skip(2) =~= t);
    assert(list_text(l) == t);
    assert(item_scan(ls, 1, 0) == 1);
    assert(items_from(ls, 1, 0) =~= Seq::<ItemModel>::empty());
    assert(items_from(ls, 0, 0) =~= seq![
        ItemModel { marker: bullet_marker(m), children: inline_model(t), sub_items: seq![] },
    ]);
    if forall|q: int| 0 <= q < t.len() ==> !crate::markdown::inline::is_special(#[trigger] t[q]) {
        crate::markdown::inline::law_plain_text(t);
    }
}

proof fn lemma_find_char_at(s: Seq<char>, i: int, e: int, c: char)
    requires
        0 <= i <= e < s.len(),
        s[e] == c,
        forall|q: int| i <= q < e ==> s[q] != c,
    ensures
        find_char(s, i, c) == Some(e),
    decreases e - i,
{
    if i < e {
        lemma_find_char_at(s, i + 1, e, c);
    }
}

/// The text of a numbered item line — digits, `. ` and its text — is the
/// text after the `. `: the number and its dot are never part of it.
pub proof fn law_numbered_item_text(d: Seq<char>, t: Seq<char>)
    requires
        d.len() > 0,
        forall|q: int| 0 <= q < d.len() ==> '0' <= #[trigger] d[q] <= '9',
    ensures
        list_text(d + seq!['.', ' '] + t) == t,
{
    let l = d + seq!['.', ' '] + t;
    let n = d.len() as int;
    assert(l[0] == d[0]);
    assert(l.skip(0) =~= l);
    assert(trim_start(l) == l);
    assert forall|q: int| 0 <= q < n + 1 implies l[q] != ' ' by {
        if q < n {
            assert(l[q] == d[q]);
        }
    }
    assert(l[n + 1] == ' ');
    lemma_find_char_at(l, 0, n + 1, ' ');
    assert(l.skip(n + 2) =~= t);
}

} // verus!

verus! {

/// An ASCII letter.
pub open spec fn ascii_letter(c: char) -> bool {
    ('a' <= c <= 'z') || ('A' <= c <= 'Z')
}

/// A line that starts with a letter and has no line break is one
/// paragraph whose children are the inline nodes of the whole line.
pub proof fn law_paragraph_line(t: Seq<char>)
    requires
        t.len() > 0,
        ascii_letter(t[0]),
        forall|q: int| 0 <= q < t.len() ==> t[q] != '\n',
    ensures
        doc_model(t) == (DocModel {
            frontmatter: None,
            blocks: seq![BlockModel::Paragraph(inline_model(t))],
        }),
{
    lemma_trim_keeps(t, 0);
    let tr = trim(t);
    assert(tr[0] == t[0]);
    assert(!blank(t));
    assert(run_len(t, 0, '#') == 0);
    assert(crate::markdown::block::atx_level(t) is None);
    assert(crate::markdown::block::fence_of(t) is None);
    assert(!crate::markdown::block::math_delim(t)) by {
        if tr == seq!['$', '$'] {
            assert(tr[0] == '$');
        }
    }
    assert(!crate::markdown::block::thematic(t));
    assert(!quote_line(t));
    lemma_find_pair(t, 0, '.', ' ');
    if let Some(k) = find_pair(t, 0, '.', ' ') {
        let d = t.take(k);
        assert(d[0] == t[0]);
        assert(crate::num::unsigned_digits(d) == d);
        assert(crate::num::digit_value(d[0], 10) is None);
        assert(!crate::num::all_digits(d, 10));
    }
    assert(list_marker(t) is None);
    assert(footnote_label(t) is None);
    assert(!crate::markdown::block::html_line(t));
    let ls = seq![t];
    assert(ls[0] == t);
    assert(crate::markdown::block::para_scan(ls, 1) == 1);
    assert(crate::markdown::block::para_scan(ls, 0) == 1);
    let x = (0int, 0int, KindModel::Paragraph);
    assert(block_step(ls, 0) == (Some(x), 1int));
    lemma_one_block(t, x);
    assert(ls.subrange(0, 1) =~= seq![t]);
    assert(join(seq![t]) == t);
}

/// A quote line `> ` and its text is one quote whose blocks are the blocks
/// of the text after the marker, parsed as a document of its own.
pub proof fn law_quote_line(t: Seq<char>)
    requires
        forall|q: int| 0 <= q < t.len() ==> t[q] != '\n',
    ensures
        doc_model(seq!['>', ' '] + t).blocks == seq![BlockModel::BlockQuote(doc_model(t).blocks)],
        doc_model(seq!['>', ' '] + t).frontmatter is None,
{
    let l = seq!['>', ' '] + t;
    assert(l[0] == '>');
    assert forall|q: int| 0 <= q < l.len() implies l[q] != '\n' by {
        if q >= 2 {
            assert(l[q] == t[q - 2]);
        }
    }
    lemma_trim_keeps(l, 0);
    let tr = trim(l);
    assert(tr[0] == '>');
    assert(!blank(l));
    assert(run_len(l, 0, '#') == 0);
    assert(crate::markdown::block::atx_level(l) is None);
    assert(crate::markdown::block::fence_of(l) is None);
    assert(!crate::markdown::block::math_delim(l)) by {
        if tr == seq!['$', '$'] {
            assert(tr[0] == '$');
        }
    }
    assert(!crate::markdown::block::thematic(l));
    assert(quote_line(l));
    let ls = seq![l];
    assert(ls[0] == l);
    assert(quote_scan(ls, 1) == 1);
    assert(quote_scan(ls, 0) == 1);
    let x = (0int, 0int, KindModel::BlockQuote);
    assert(block_step(ls, 0) == (Some(x), 1int));
    lemma_one_block(l, x);
    assert(quote_lines(ls, 0, 0) =~= seq![strip_quote(l)]);
    assert(strip_quote(l) =~= t);
    assert(join(seq![t]) == t);
}

} // verus!

verus! {

proof fn lemma_next_nl_at(s: Seq<char>, i: int, j: int)
    requires
        0 <= i <= j <= s.len(),
        forall|q: int| i <= q < j ==> s[q] != '\n',
        j == s.len() || s[j] == '\n',
    ensures
        next_nl(s, i) == j,
    decreases j - i,
{
    if i < j {
        lemma_next_nl_at(s, i + 1, j);
    }
}

/// A line without a backtick never closes a backtick fence.
proof fn lemma_no_tick_not_closing(c: Seq<char>)
    requires
        forall|q: int| 0 <= q < c.len() ==> c[q] != '`',
    ensures
        !crate::markdown::block::closing_fence(c, '`'),
{
    crate::text::lemma_skip_ws_bounds(c, 0);
    let ts = trim_start(c);
    crate::text::lemma_back_ws_bounds(ts, ts.len() as int);
    let t = trim(c);
    if t.len() > 0 {
        assert(t[0] == ts[0]);
        assert(ts[0] == c[crate::text::skip_ws_from(c, 0)]);
    }
}

/// A fenced block of three backticks around one line without backticks
/// or line-break characters is one code block, without a language, whose
/// code is exactly that line: neither fence is part of the code.
pub proof fn law_code_block(c: Seq<char>)
    requires
        forall|q: int| 0 <= q < c.len() ==> c[q] != '`' && c[q] != '\n' && c[q] != '\r',
    ensures
        doc_model(seq!['`', '`', '`', '\n'] + c + seq!['\n', '`', '`', '`']) == (DocModel {
            frontmatter: None,
            blocks: seq![BlockModel::CodeBlock(None, c)],
        }),
{
    let f = seq!['`', '`', '`'];
    let s = seq!['`', '`', '`', '\n'] + c + seq!['\n', '`', '`', '`'];
    let m = c.len() as int;
    let n = s.len() as int;
    assert(n == m + 8);
    assert forall|q: int| 4 <= q < 4 + m implies s[q] != '\n' && s[q] == c[q - 4] by {
        assert(s[q] == c[q - 4]);
    }
    assert(s[3] == '\n' && s[4 + m] == '\n');
    lemma_next_nl_at(s, 0, 3);
    lemma_next_nl_at(s, 4, 4 + m);
    lemma_next_nl_at(s, 5 + m, n);
    assert(line_piece(s, 0, 3) =~= f);
    assert(line_piece(s, 4, 4 + m) =~= c) by {
        if m > 0 {
            assert(s.subrange(4, 4 + m).last() == c[m - 1]);
        }
    }
    assert(line_piece(s, 5 + m, n) =~= f);
    assert(lines_from(s, n + 1) =~= Seq::<Seq<char>>::empty());
    assert(lines_from(s, 5 + m) =~= seq![f]);
    assert(lines_from(s, 4) =~= seq![c, f]);
    assert(lines(s) =~= seq![f, c, f]);
    // No front matter: the text starts with a backtick.
    assert(crate::text::skip_ws_from(s, 0) == 0);
    assert(s.skip(0) =~= s);
    assert(split_fm(s) == (None::<Seq<char>>, s));
    let ls = seq![f, c, f];
    // The opening fence.
    lemma_trim_keeps(f, 2);
    assert(trim(f) =~= f);
    assert(!blank(f));
    assert(run_len(f, 0, '#') == 0);
    assert(crate::markdown::block::atx_level(f) is None);
    lemma_run_len_at(f, 0, 3, '`');
    assert(f.skip(3) =~= Seq::<char>::empty());
    assert(crate::text::skip_ws_from(Seq::<char>::empty(), 0) == 0);
    assert(crate::text::back_ws_from(Seq::<char>::empty(), 0) == 0);
    assert(trim(Seq::<char>::empty()) =~= Seq::<char>::empty());
    assert(crate::markdown::block::fence_of(f) == Some(('`', 3nat, None::<Seq<char>>)));
    // The closing fence.
    lemma_no_tick_not_closing(c);
    assert(crate::markdown::block::closing_fence(f, '`'));
    assert(ls[1] == c && ls[2] == f);
    assert(crate::markdown::block::fence_scan(ls, 2, '`') == 2);
    assert(crate::markdown::block::fence_scan(ls, 1, '`') == 2);
    let x = (0int, 2int, KindModel::CodeBlock(None));
    assert(block_step(ls, 0) == (Some(x), 3int));
    assert(blocks_from(ls, 3) =~= Seq::<(int, int, KindModel)>::empty());
    assert(blocks_model(ls) =~= seq![x]);
    assert(fence_line(f));
    assert(code_text(ls, 0, 2) == join(ls.subrange(1, 2)));
    assert(ls.subrange(1, 2) =~= seq![c]);
    assert(join(seq![c]) == c);
    assert(doc_model(s).blocks =~= seq![BlockModel::CodeBlock(None, c)]);
}

} // verus!
