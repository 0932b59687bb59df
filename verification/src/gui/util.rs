//! Text helpers of the editor: line splitting, column and offset
//! conversions between characters, UTF-8 bytes and UTF-16 units, tag input
//! parsing, and the line-wrapping break rules.
use vstd::prelude::*;
use crate::text::{
    chars_of,
    dedup,
    distinct,
    is_whitespace,
    is_ws,
    law_dedup,
    lemma_skip_ws_bounds,
    lemma_next_nl_bounds,
    line_piece,
    lines,
    lines_from,
    next_nl,
    push_unique,
    skip_ws_from,
    split_lines_chars,
    string_from_chars,
    string_views,
    views,
};
use crate::utf8len::{
    blen,
    char_index_of_byte,
    char_utf8_len,
    cidx,
    clen,
    is_boundary,
    lemma_blen_concat,
    lemma_blen_mono,
    lemma_blen_single,
    lemma_boundary_split,
    lemma_clen_bounds,
};

verus! {

/// One visual row of a wrapped line: the bytes `start_byte..end_byte`.
#[derive(Debug, Clone, PartialEq, Eq)]
pub struct WrapSegment {
    pub start_byte: usize,
    pub end_byte: usize,
}

/// UTF-16 code units of a character.
pub open spec fn u16_units(c: char) -> nat {
    if (c as u32) > 0xFFFF {
        2
    } else {
        1
    }
}

/// UTF-16 length of a character sequence.
pub open spec fn utf16_len(s: Seq<char>) -> nat
    decreases s.len(),
{
    if s.len() == 0 {
        0
    } else {
        utf16_len(s.drop_last()) + u16_units(s.last())
    }
}

/// Byte offset of the first character from `k` on before which at least
/// `pos` UTF-16 units lie (`count` of them lie before character `k`); the
/// text's length when there is none.
pub open spec fn utf16_byte_from(s: Seq<char>, k: int, count: int, pos: int) -> int
    decreases s.len() - k,
{
    if k < 0 || k >= s.len() {
        blen(s) as int
    } else if count >= pos {
        blen(s.take(k)) as int
    } else {
        utf16_byte_from(s, k + 1, count + u16_units(s[k]), pos)
    }
}

/// The lines of a text, with a final empty line after a trailing newline
/// and a single empty line for an empty text.
pub open spec fn editor_lines(s: Seq<char>) -> Seq<Seq<char>> {
    if s.len() == 0 {
        seq![Seq::<char>::empty()]
    } else if s.last() == '\n' {
        lines(s).push(Seq::<char>::empty())
    } else {
        lines(s)
    }
}

/// End of the run of non-whitespace characters that starts at `j`.
pub open spec fn token_end(s: Seq<char>, j: int) -> int
    decreases s.len() - j,
{
    if 0 <= j < s.len() && !is_ws(s[j]) {
        token_end(s, j + 1)
    } else {
        j
    }
}

pub proof fn lemma_token_end(s: Seq<char>, j: int)
    requires
        0 <= j <= s.len(),
    ensures
        j <= token_end(s, j) <= s.len(),
        j < s.len() && !is_ws(s[j]) ==> token_end(s, j) > j,
    decreases s.len() - j,
{
    if j < s.len() && !is_ws(s[j]) {
        lemma_token_end(s, j + 1);
    }
}

/// The whitespace-separated tokens of `s` from `i` on (`str::split_whitespace`).
pub open spec fn tokens_from(s: Seq<char>, i: int) -> Seq<Seq<char>>
    decreases s.len() + 1 - i,
{
    if i < 0 || i > s.len() {
        seq![]
    } else {
        let j = skip_ws_from(s, i);
        proof {
            lemma_skip_ws_bounds(s, i);
            lemma_token_end(s, j);
        }
        if j >= s.len() {
            seq![]
        } else {
            seq![s.subrange(j, token_end(s, j))] + tokens_from(s, token_end(s, j))
        }
    }
}

/// The tags written in the tokens `ts`: each `#name` with a non-empty name.
pub open spec fn tags_of(ts: Seq<Seq<char>>) -> Seq<Seq<char>>
    decreases ts.len(),
{
    if ts.len() == 0 {
        seq![]
    } else {
        let t = ts[0];
        let rest = tags_of(ts.drop_first());
        if t.len() >= 2 && t[0] == '#' {
            seq![t.skip(1)] + rest
        } else {
            rest
        }
    }
}

/// The distinct tags of a tag input, in order of first appearance.
pub open spec fn input_tags(s: Seq<char>) -> Seq<Seq<char>> {
    dedup(tags_of(tokens_from(s, 0)))
}

pub proof fn lemma_utf16_le_blen(s: Seq<char>)
    ensures
        utf16_len(s) <= blen(s),
    decreases s.len(),
{
    if s.len() > 0 {
        lemma_utf16_le_blen(s.drop_last());
        assert(s =~= s.drop_last() + seq![s.last()]);
        lemma_blen_concat(s.drop_last(), seq![s.last()]);
        lemma_blen_single(s.last());
        lemma_clen_bounds(s.last());
    }
}

/// Each character adds at least one UTF-16 unit.
pub proof fn lemma_utf16_take(s: Seq<char>, k: int)
    requires
        0 <= k < s.len(),
    ensures
        utf16_len(s.take(k + 1)) == utf16_len(s.take(k)) + u16_units(s[k]),
{
    assert(s.take(k + 1).drop_last() =~= s.take(k));
}

pub proof fn lemma_utf16_mono(s: Seq<char>, i: int, j: int)
    requires
        0 <= i < j <= s.len(),
    ensures
        utf16_len(s.take(i)) < utf16_len(s.take(j)),
    decreases j - i,
{
    lemma_utf16_take(s, j - 1);
    if i < j - 1 {
        lemma_utf16_mono(s, i, j - 1);
    }
}

/// UTF-16 offset of byte `byte_pos`, which must start a character or end the text.
pub fn byte_to_utf16(text: &str, byte_pos: usize) -> (r: usize)
    requires
        is_boundary(text@, byte_pos as int),
    ensures
        r == utf16_len(text@.take(cidx(text@, byte_pos as int))),
{
    let n = text.as_bytes().len();
    let chars = chars_of(text);
    let k = char_index_of_byte(chars.as_slice(), byte_pos);
    let ghost s = text@;
    proof {
        lemma_utf16_le_blen(s);
        lemma_blen_mono(s, k as int, s.len() as int);
        lemma_utf16_le_blen(s.take(k as int));
    }
    let mut sum: usize = 0;
    let mut q: usize = 0;
    while q < k
        invariant
            q <= k <= s.len(),
            chars@ == s,
            sum == utf16_len(s.take(q as int)),
            utf16_len(s.take(k as int)) <= n,
        decreases k - q,
    {
        proof {
            lemma_utf16_take(s, q as int);
        }
        let c = chars[q];
        let w: usize = if (c as u32) > 0xFFFF {
            2
        } else {
            1
        };
        proof {
            if q + 1 < k {
                lemma_utf16_mono(s, q + 1, k as int);
            }
        }
        sum = sum + w;
        q += 1;
    }
    sum
}

/// Byte offset of the character at UTF-16 offset `utf16_pos` (the first
/// character with at least that many units before it), or the text's length.
pub fn utf16_to_byte(text: &str, utf16_pos: usize) -> (r: usize)
    ensures
        r == utf16_byte_from(text@, 0, 0, utf16_pos as int),
{
    let n = text.as_bytes().len();
    let chars = chars_of(text);
    let ghost s = text@;
    proof {
        lemma_utf16_le_blen(s);
    }
    let mut count: usize = 0;
    let mut i: usize = 0;
    let mut k: usize = 0;
    while k < chars.len()
        invariant
            k <= s.len(),
            chars@ == s,
            s == text@,
            n == blen(s),
            count == utf16_len(s.take(k as int)),
            i == blen(s.take(k as int)),
            utf16_byte_from(s, k as int, count as int, utf16_pos as int) == utf16_byte_from(
                s,
                0,
                0,
                utf16_pos as int,
            ),
        decreases s.len() - k,
    {
        if count >= utf16_pos {
            proof {
                assert(utf16_byte_from(s, k as int, count as int, utf16_pos as int) == blen(
                    s.take(k as int),
                ));
            }
            return i;
        }
        let c = chars[k];
        proof {
            lemma_utf16_take(s, k as int);
            lemma_blen_mono(s, k as int + 1, s.len() as int);
            lemma_utf16_le_blen(s.take(k as int + 1));
            assert(s.take(k as int + 1) =~= s.take(k as int) + seq![c]);
            lemma_blen_concat(s.take(k as int), seq![c]);
            lemma_blen_single(c);
        }
        count += if (c as u32) > 0xFFFF {
            2
        } else {
            1
        };
        i += char_utf8_len(c);
        k += 1;
    }
    n
}

/// Byte offset of character `char_idx`, or the text's length past the end.
pub fn char_idx_to_byte(s: &str, char_idx: usize) -> (r: usize)
    ensures
        r == if char_idx < s@.len() {
            blen(s@.take(char_idx as int))
        } else {
            blen(s@)
        },
{
    let n = s.as_bytes().len();
    let chars = chars_of(s);
    if char_idx >= chars.len() {
        return n;
    }
    let mut i: usize = 0;
    let mut k: usize = 0;
    while k < char_idx
        invariant
            k <= char_idx < s@.len(),
            chars@ == s@,
            n == blen(s@),
            i == blen(s@.take(k as int)),
        decreases char_idx - k,
    {
        let c = chars[k];
        proof {
            lemma_blen_mono(s@, k as int + 1, s@.len() as int);
            assert(s@.take(k as int + 1) =~= s@.take(k as int) + seq![c]);
            lemma_blen_concat(s@.take(k as int), seq![c]);
            lemma_blen_single(c);
        }
        i += char_utf8_len(c);
        k += 1;
    }
    i
}

/// Splits `s` before character `col` (at the end when `col` is past it).
pub fn split_at_char_col(s: &str, col: usize) -> (r: (String, String))
    ensures
        r.0@ == s@.take(if col < s@.len() {
            col as int
        } else {
            s@.len() as int
        }),
        r.1@ == s@.skip(if col < s@.len() {
            col as int
        } else {
            s@.len() as int
        }),
{
    let chars = chars_of(s);
    let k = if col < chars.len() {
        col
    } else {
        chars.len()
    };
    let before = string_from_chars(vstd::slice::slice_subrange(chars.as_slice(), 0, k));
    let after = string_from_chars(vstd::slice::slice_subrange(chars.as_slice(), k, chars.len()));
    proof {
        assert(chars@.subrange(0, k as int) =~= s@.take(k as int));
        assert(chars@.subrange(k as int, chars@.len() as int) =~= s@.skip(k as int));
    }
    (before, after)
}

/// The pieces of `s[i..]` between its newlines (`str::split('\n')`):
/// always one more than the newlines.
pub open spec fn pieces_from(s: Seq<char>, i: int) -> Seq<Seq<char>>
    decreases s.len() + 1 - i,
{
    if i < 0 || i > s.len() {
        seq![]
    } else {
        let j = next_nl(s, i);
        proof {
            lemma_next_nl_bounds(s, i);
        }
        if j >= s.len() {
            seq![s.subrange(i, s.len() as int)]
        } else {
            seq![s.subrange(i, j)] + pieces_from(s, j + 1)
        }
    }
}

/// Newlines in `s[i..]`.
pub open spec fn newlines_from(s: Seq<char>, i: int) -> nat
    decreases s.len() - i,
{
    if i < 0 || i >= s.len() {
        0
    } else {
        (if s[i] == '\n' {
            1nat
        } else {
            0nat
        }) + newlines_from(s, i + 1)
    }
}

proof fn lemma_newlines_skip(s: Seq<char>, i: int, j: int)
    requires
        0 <= i <= j <= s.len(),
        forall|k: int| i <= k < j ==> s[k] != '\n',
    ensures
        newlines_from(s, i) == newlines_from(s, j),
    decreases j - i,
{
    if i < j {
        lemma_newlines_skip(s, i + 1, j);
    }
}

/// Without `'\r'`, the editor's lines of `s[i..]` are its pieces between
/// newlines; they join back into `s[i..]`, hold no newline, and number one
/// more than its newlines.
proof fn lemma_pieces(s: Seq<char>, i: int)
    requires
        0 <= i <= s.len(),
        forall|k: int| 0 <= k < s.len() ==> s[k] != '\r',
    ensures
        pieces_from(s, i) == if i == s.len() {
            seq![Seq::<char>::empty()]
        } else if s.last() == '\n' {
            lines_from(s, i).push(Seq::<char>::empty())
        } else {
            lines_from(s, i)
        },
        crate::markdown::parser::join(pieces_from(s, i)) == s.subrange(i, s.len() as int),
        pieces_from(s, i).len() == newlines_from(s, i) + 1,
        forall|k: int, m: int|
            0 <= k < pieces_from(s, i).len() && 0 <= m < pieces_from(s, i)[k].len()
                ==> #[trigger] pieces_from(s, i)[k][m] != '\n',
    decreases s.len() - i,
{
    let n = s.len() as int;
    let j = next_nl(s, i);
    lemma_next_nl_bounds(s, i);
    lemma_newlines_skip(s, i, j);
    if j >= n {
        assert(s.subrange(i, n).len() == 0 ==> s.subrange(i, n) =~= Seq::<char>::empty());
        if i < n {
            assert(line_piece(s, i, j) =~= s.subrange(i, n));
            assert(lines_from(s, n + 1) =~= Seq::<Seq<char>>::empty());
            assert(lines_from(s, i) =~= seq![s.subrange(i, n)]);
            assert(s[n - 1] != '\n');
        }
    } else {
        lemma_pieces(s, j + 1);
        let rest = pieces_from(s, j + 1);
        assert(pieces_from(s, i) == seq![s.subrange(i, j)] + rest);
        assert(line_piece(s, i, j) =~= s.subrange(i, j)) by {
            if s.subrange(i, j).len() > 0 {
                assert(s.subrange(i, j).last() == s[j - 1]);
            }
        }
        assert(lines_from(s, i) == seq![s.subrange(i, j)] + lines_from(s, j + 1));
        if j + 1 == n {
            assert(lines_from(s, n) =~= Seq::<Seq<char>>::empty());
            assert(s.last() == '\n');
        }
        assert((seq![s.subrange(i, j)] + rest).drop_first() =~= rest);
        assert(rest.len() >= 1);
        assert(s.subrange(i, n) =~= s.subrange(i, j) + seq!['\n'] + s.subrange(j + 1, n));
        assert(forall|k: int| 0 < k < pieces_from(s, i).len() ==> pieces_from(s, i)[k] == rest[k - 1]);
        if j + 1 < n {
            assert((lines_from(s, i).push(Seq::<char>::empty())) =~= seq![s.subrange(i, j)] + lines_from(s, j + 1).push(Seq::<char>::empty()));
        }
    }
}

/// Without `'\r'` in the text, the editor's lines joined with newlines
/// give back the text; there is one more line than there are newlines, and
/// no line holds a newline.
pub proof fn law_split_lines_join(s: Seq<char>)
    requires
        forall|k: int| 0 <= k < s.len() ==> s[k] != '\r',
    ensures
        crate::markdown::parser::join(editor_lines(s)) == s,
        editor_lines(s).len() == newlines_from(s, 0) + 1,
        forall|k: int, m: int|
            0 <= k < editor_lines(s).len() && 0 <= m < editor_lines(s)[k].len()
                ==> #[trigger] editor_lines(s)[k][m] != '\n',
{
    lemma_pieces(s, 0);
    assert(s.subrange(0, s.len() as int) =~= s);
}

/// The editor's lines of a text: `str::lines`, plus an empty last line
/// after a trailing newline; an empty text is one empty line.
pub fn split_lines(text: &str) -> (r: Vec<String>)
    ensures
        string_views(r@) == editor_lines(text@),
{
    let chars = chars_of(text);
    if chars.len() == 0 {
        let r = vec![String::new()];
        proof {
            assert(string_views(r@) =~= editor_lines(text@));
        }
        return r;
    }
    let pieces = split_lines_chars(chars.as_slice());
    let mut r: Vec<String> = Vec::new();
    let mut k: usize = 0;
    while k < pieces.len()
        invariant
            k <= pieces@.len(),
            string_views(r@) == views(pieces@).take(k as int),
        decreases pieces@.len() - k,
    {
        let ghost before = string_views(r@);
        let line = string_from_chars(pieces[k].as_slice());
        r.push(line);
        proof {
            assert(string_views(r@) =~= before.push(pieces@[k as int]@));
            assert(views(pieces@).take(k + 1) =~= views(pieces@).take(k as int).push(
                pieces@[k as int]@,
            ));
        }
        k += 1;
    }
    proof {
        assert(views(pieces@).take(pieces@.len() as int) =~= views(pieces@));
    }
    if chars[chars.len() - 1] == '\n' {
        let ghost before = string_views(r@);
        r.push(String::new());
        proof {
            assert(string_views(r@) =~= before.push(Seq::<char>::empty()));
        }
    }
    r
}

/// The distinct tags (`#name`, name non-empty) among the whitespace
/// separated tokens of a tag input, in order of first appearance.
pub fn parse_tags_from_input(input: &str) -> (r: Vec<String>)
    ensures
        string_views(r@) == input_tags(input@),
{
    let chars = chars_of(input);
    let ghost s = input@;
    let n = chars.len();
    let mut tags: Vec<String> = Vec::new();
    let ghost mut seen: Seq<Seq<char>> = seq![];
    let mut i: usize = 0;
    loop
        invariant
            i <= n,
            n == s.len(),
            chars@ == s,
            s == input@,
            seen + tags_of(tokens_from(s, i as int)) == tags_of(tokens_from(s, 0)),
            string_views(tags@) == dedup(seen),
        decreases n - i,
    {
        let mut j = i;
        while j < n && is_whitespace(chars[j])
            invariant
                i <= j <= n,
                n == s.len(),
                chars@ == s,
                skip_ws_from(s, j as int) == skip_ws_from(s, i as int),
            decreases n - j,
        {
            j += 1;
        }
        proof {
            lemma_skip_ws_bounds(s, i as int);
        }
        if j >= n {
            proof {
                assert(skip_ws_from(s, i as int) == n);
                assert(tokens_from(s, i as int) =~= seq![]);
                assert(tags_of(tokens_from(s, i as int)) =~= seq![]);
                assert(seen + tags_of(seq![]) =~= seen);
                assert(seen == tags_of(tokens_from(s, 0)));
            }
            return tags;
        }
        let mut k = j;
        while k < n && !is_whitespace(chars[k])
            invariant
                j <= k <= n,
                n == s.len(),
                chars@ == s,
                token_end(s, k as int) == token_end(s, j as int),
            decreases n - k,
        {
            k += 1;
        }
        proof {
            lemma_token_end(s, j as int);
        }
        let ghost tok = s.subrange(j as int, k as int);
        proof {
            assert(tokens_from(s, i as int) == seq![tok] + tokens_from(s, k as int));
            assert((seq![tok] + tokens_from(s, k as int)).drop_first() =~= tokens_from(
                s,
                k as int,
            ));
        }
        if k - j >= 2 && chars[j] == '#' {
            let tag = string_from_chars(vstd::slice::slice_subrange(chars.as_slice(), j + 1, k));
            proof {
                assert(tag@ =~= tok.skip(1));
                assert(seen.push(tok.skip(1)).drop_last() =~= seen);
                assert(seen.push(tok.skip(1)) + tags_of(tokens_from(s, k as int)) =~= seen
                    + tags_of(tokens_from(s, i as int)));
            }
            push_unique(&mut tags, tag);
            proof {
                seen = seen.push(tok.skip(1));
            }
        }
        i = k;
    }
}

proof fn lemma_roundtrip_from(s: Seq<char>, k: int, k0: int)
    requires
        0 <= k <= k0 <= s.len(),
    ensures
        utf16_byte_from(s, k, utf16_len(s.take(k)) as int, utf16_len(s.take(k0)) as int) == if k0
            < s.len() {
            blen(s.take(k0))
        } else {
            blen(s)
        },
    decreases k0 - k,
{
    if k < k0 {
        lemma_utf16_mono(s, k, k0);
        lemma_utf16_take(s, k);
        lemma_roundtrip_from(s, k + 1, k0);
    }
}

/// Converting a byte offset at a character boundary to UTF-16 units and
/// back gives the same byte offset.
pub proof fn law_utf16_roundtrip(s: Seq<char>, b: int)
    requires
        is_boundary(s, b),
    ensures
        utf16_byte_from(s, 0, 0, utf16_len(s.take(cidx(s, b))) as int) == b,
{
    lemma_boundary_split(s, b);
    let k0 = cidx(s, b);
    assert(utf16_len(s.take(0)) == 0) by {
        assert(s.take(0) =~= Seq::<char>::empty());
    }
    lemma_roundtrip_from(s, 0, k0);
    if k0 == s.len() {
        assert(s.take(k0) =~= s);
    }
}

/// The tags read from an input are distinct, and they are exactly the tags
/// written in it.
pub proof fn law_input_tags(s: Seq<char>)
    ensures
        distinct(input_tags(s)),
        forall|x: Seq<char>|
            input_tags(s).contains(x) <==> tags_of(tokens_from(s, 0)).contains(x),
{
    law_dedup(tags_of(tokens_from(s, 0)));
}

/// Display width of a character in columns, `None` for control characters
/// (`UnicodeWidthChar::width` of the unicode-width crate).
pub uninterp spec fn char_width(c: char) -> Option<usize>;

/// `UnicodeWidthChar::width`: the column width of `c` from the crate's
/// Unicode tables, a function of `c` alone.
#[verifier::external_body]
fn unicode_width_of(c: char) -> (r: Option<usize>)
    ensures
        r == char_width(c),
{
    unicode_width::UnicodeWidthChar::width(c)
}

/// A character of this width is wide (full-width CJK, emoji).
pub fn is_wide(width: Option<usize>) -> (r: bool)
    ensures
        r == (width == Some(2usize)),
{
    match width {
        Some(w) => w == 2,
        None => false,
    }
}

/// A line may wrap after this one-character text: a space, a tab, or a
/// wide character.
pub open spec fn break_after(ch: Seq<char>) -> bool {
    ch == seq![' '] || ch == seq!['\t'] || (ch.len() > 0 && char_width(ch[0]) == Some(2usize))
}

/// Whether a line may wrap after the character `ch`.
pub fn is_break_opportunity_after(ch: &str) -> (r: bool)
    ensures
        r == break_after(ch@),
{
    let cs = chars_of(ch);
    if cs.len() == 1 && (cs[0] == ' ' || cs[0] == '\t') {
        proof {
            assert(cs@ =~= seq![cs@[0]]);
        }
        return true;
    }
    proof {
        if ch@ == seq![' '] || ch@ == seq!['\t'] {
            assert(cs@.len() == 1);
        }
    }
    if cs.len() > 0 {
        is_wide(unicode_width_of(cs[0]))
    } else {
        false
    }
}

/// UTF-8 length of a character from its first byte; 1 for a byte that
/// cannot start one.
pub fn utf8_char_len(first_byte: u8) -> (r: usize)
    ensures
        r == if first_byte < 0x80 {
            1usize
        } else if first_byte >> 5 == 6 {
            2
        } else if first_byte >> 4 == 14 {
            3
        } else if first_byte >> 3 == 30 {
            4
        } else {
            1
        },
{
    if first_byte < 0x80 {
        1
    } else if first_byte >> 5 == 0b110 {
        2
    } else if first_byte >> 4 == 0b1110 {
        3
    } else if first_byte >> 3 == 0b11110 {
        4
    } else {
        1
    }
}

} // verus!
