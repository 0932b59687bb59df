//! Byte offsets and (line, column) positions of the editor's text, counted
//! the way the editor counts them: over `str::lines`, each line followed by
//! one byte for its newline.
use vstd::prelude::*;
use crate::text::{chars_of, lemma_next_nl_bounds, line_piece, lines, lines_from, next_nl, split_lines_chars, views};
use crate::utf8len::{
    blen, char_utf8_len, cidx, is_boundary, lemma_blen_concat, lemma_blen_mono, lemma_blen_single,
    lemma_boundary_split,
};

verus! {

/// Where line `k` starts: the lengths of the lines before it, each plus one
/// for its newline.
pub open spec fn line_start(ls: Seq<Seq<char>>, k: int) -> int
    decreases k,
{
    if k <= 0 || k > ls.len() {
        0
    } else {
        line_start(ls, k - 1) + blen(ls[k - 1]) + 1
    }
}

/// The first line from `k` on that ends at or after byte `p`.
pub open spec fn line_of_byte(ls: Seq<Seq<char>>, k: int, p: int) -> Option<int>
    decreases ls.len() - k,
{
    if k < 0 || k >= ls.len() {
        None
    } else if p <= line_start(ls, k) + blen(ls[k]) {
        Some(k)
    } else {
        line_of_byte(ls, k + 1, p)
    }
}

/// The (line, column) of byte `p`: its line, and the number of characters
/// from the line's start to `p`; past the last line, the last of the
/// editor's `line_count` lines, column 0.
pub open spec fn byte_line_col(text: Seq<char>, line_count: nat, p: int) -> (int, int) {
    let ls = lines(text);
    match line_of_byte(ls, 0, p) {
        Some(k) => (k, cidx(text, p) - cidx(text, line_start(ls, k))),
        None => (
            if line_count > 0 {
                line_count - 1
            } else {
                0
            },
            0,
        ),
    }
}

/// The start of the line of `p` and `p` itself are character boundaries.
pub open spec fn line_col_defined(text: Seq<char>, p: int) -> bool {
    match line_of_byte(lines(text), 0, p) {
        Some(k) => is_boundary(text, line_start(lines(text), k)) && is_boundary(text, p),
        None => true,
    }
}

/// The byte of (line, column): the line's start plus the bytes of its
/// first `col` characters (all of them when it is shorter); past the last
/// line, the end of the text.
pub open spec fn line_col_byte(text: Seq<char>, line: int, col: int) -> int {
    let ls = lines(text);
    if 0 <= line < ls.len() {
        let l = ls[line];
        line_start(ls, line) + blen(
            l.take(
                if col < l.len() {
                    col
                } else {
                    l.len() as int
                },
            ),
        )
    } else {
        blen(text) as int
    }
}

pub proof fn lemma_line_start_cons(p: Seq<char>, rest: Seq<Seq<char>>, k: int)
    requires
        0 <= k <= rest.len(),
    ensures
        line_start(seq![p] + rest, k + 1) == blen(p) + 1 + line_start(rest, k),
    decreases k,
{
    let x = seq![p] + rest;
    assert(line_start(x, k + 1) == line_start(x, k) + blen(x[k]) + 1);
    if k > 0 {
        lemma_line_start_cons(p, rest, k - 1);
        assert(x[k] == rest[k - 1]);
        assert(line_start(rest, k) == line_start(rest, k - 1) + blen(rest[k - 1]) + 1);
    } else {
        assert(x[0] == p);
    }
}

/// The editor's line positions stay within the text.
pub proof fn lemma_lines_bytes(s: Seq<char>, i: int)
    requires
        0 <= i <= s.len(),
    ensures
        forall|k: int|
            0 <= k <= lines_from(s, i).len() ==> #[trigger] line_start(lines_from(s, i), k) <= blen(
                s.subrange(i, s.len() as int),
            ) + 1,
        forall|k: int|
            0 <= k < lines_from(s, i).len() ==> line_start(lines_from(s, i), k) + blen(
                #[trigger] lines_from(s, i)[k],
            ) <= blen(s.subrange(i, s.len() as int)),
    decreases s.len() - i,
{
    if i < s.len() {
        let j = next_nl(s, i);
        lemma_next_nl_bounds(s, i);
        let p = line_piece(s, i, j);
        let rest = lines_from(s, j + 1);
        let x = lines_from(s, i);
        assert(x == seq![p] + rest);
        let n = s.len() as int;
        let whole = s.subrange(i, n);
        assert(blen(p) <= blen(s.subrange(i, j))) by {
            let q = s.subrange(i, j);
            if j < n && q.len() > 0 && q.last() == '\r' {
                assert(q =~= q.drop_last() + seq![q.last()]);
                lemma_blen_concat(q.drop_last(), seq![q.last()]);
            }
        }
        assert(whole =~= s.subrange(i, j) + s.subrange(j, n));
        lemma_blen_concat(s.subrange(i, j), s.subrange(j, n));
        if j < n {
            lemma_lines_bytes(s, j + 1);
            assert(s.subrange(j, n) =~= seq!['\n'] + s.subrange(j + 1, n));
            lemma_blen_concat(seq!['\n'], s.subrange(j + 1, n));
            lemma_blen_single('\n');
            crate::utf8len::lemma_clen_bounds('\n');
            assert forall|k: int| 0 <= k <= x.len() implies #[trigger] line_start(x, k) <= blen(whole)
                + 1 by {
                if k > 0 {
                    lemma_line_start_cons(p, rest, k - 1);
                    assert(line_start(rest, k - 1) <= blen(s.subrange(j + 1, n)) + 1);
                }
            }
            assert forall|k: int| 0 <= k < x.len() implies line_start(x, k) + blen(#[trigger] x[k])
                <= blen(whole) by {
                if k > 0 {
                    lemma_line_start_cons(p, rest, k - 1);
                    assert(x[k] == rest[k - 1]);
                    assert(line_start(rest, k - 1) + blen(rest[k - 1]) <= blen(s.subrange(j + 1, n)));
                } else {
                    assert(x[0] == p);
                }
            }
        } else {
            assert(rest =~= Seq::<Seq<char>>::empty());
            assert(s.subrange(j, n) =~= Seq::<char>::empty());
            assert forall|k: int| 0 <= k <= x.len() implies #[trigger] line_start(x, k) <= blen(whole)
                + 1 by {
                if k > 0 {
                    lemma_line_start_cons(p, rest, k - 1);
                }
            }
            assert forall|k: int| 0 <= k < x.len() implies line_start(x, k) + blen(#[trigger] x[k])
                <= blen(whole) by {
                assert(x[0] == p);
            }
        }
    } else {
        assert(lines_from(s, i) =~= Seq::<Seq<char>>::empty());
    }
}

/// The (line, column) of a byte of the text (see [`byte_line_col`]), the
/// text having `line_count` editor lines.
pub fn byte_to_line_col(text: &str, line_count: usize, byte_pos: usize) -> (r: (usize, usize))
    requires
        line_col_defined(text@, byte_pos as int),
    ensures
        r.0 as int == byte_line_col(text@, line_count as nat, byte_pos as int).0,
        r.1 as int == byte_line_col(text@, line_count as nat, byte_pos as int).1,
{
    let chars = chars_of(text);
    let s = chars.as_slice();
    let pieces = split_lines_chars(s);
    let ghost ls = lines(text@);
    let _total = text.as_bytes().len();
    proof {
        lemma_lines_bytes(text@, 0);
        assert(text@.subrange(0, text@.len() as int) =~= text@);
    }
    let n = pieces.len();
    let mut current: usize = 0;
    let mut k: usize = 0;
    while k < n
        invariant
            k <= n,
            n == ls.len(),
            views(pieces@) == ls,
            ls == lines(text@),
            s@ == text@,
            current == line_start(ls, k as int),
            current <= byte_pos,
            blen(text@) <= usize::MAX,
            forall|q: int| 0 <= q <= ls.len() ==> #[trigger] line_start(ls, q) <= blen(text@) + 1,
            forall|q: int| 0 <= q < ls.len() ==> line_start(ls, q) + blen(#[trigger] ls[q]) <= blen(text@),
            line_of_byte(ls, k as int, byte_pos as int) == line_of_byte(ls, 0, byte_pos as int),
            line_col_defined(text@, byte_pos as int),
        decreases n - k,
    {
        let piece = pieces[k].as_slice();
        proof {
            assert(piece@ == ls[k as int]);
            assert(line_start(ls, k as int) + blen(ls[k as int]) <= blen(text@));
        }
        let len = byte_len(piece);
        let line_end = current + len;
        if byte_pos <= line_end {
            let a = crate::utf8len::char_index_of_byte(s, current);
            let b = crate::utf8len::char_index_of_byte(s, byte_pos);
            proof {
                lemma_boundary_split(text@, current as int);
                lemma_boundary_split(text@, byte_pos as int);
                if b < a {
                    lemma_blen_mono(text@, b as int, a as int);
                    crate::utf8len::lemma_blen_empty(text@.subrange(b as int, a as int));
                }
            }
            return (k, b - a);
        }
        proof {
            assert(line_start(ls, k + 1) == line_start(ls, k as int) + blen(ls[k as int]) + 1);
            assert(line_start(ls, k + 1) <= blen(text@) + 1);
        }
        current = line_end + 1;
        k += 1;
    }
    let last = if line_count > 0 {
        line_count - 1
    } else {
        0
    };
    (last, 0)
}

/// The byte of (line, column) of the text (see [`line_col_byte`]).
pub fn line_col_to_byte(text: &str, line: usize, col: usize) -> (r: usize)
    requires
        blen(text@) < usize::MAX,
    ensures
        r as int == line_col_byte(text@, line as int, col as int),
{
    let chars = chars_of(text);
    let s = chars.as_slice();
    let pieces = split_lines_chars(s);
    let ghost ls = lines(text@);
    proof {
        lemma_lines_bytes(text@, 0);
        assert(text@.subrange(0, text@.len() as int) =~= text@);
    }
    let total = text.as_bytes().len();
    let n = pieces.len();
    let mut current: usize = 0;
    let mut k: usize = 0;
    while k < n
        invariant
            k <= n,
            n == ls.len(),
            views(pieces@) == ls,
            ls == lines(text@),
            current == line_start(ls, k as int),
            total == blen(text@),
            blen(text@) < usize::MAX,
            forall|q: int| 0 <= q <= ls.len() ==> #[trigger] line_start(ls, q) <= blen(text@) + 1,
            forall|q: int| 0 <= q < ls.len() ==> line_start(ls, q) + blen(#[trigger] ls[q]) <= blen(text@),
            k <= line,
        decreases n - k,
    {
        let piece = pieces[k].as_slice();
        proof {
            assert(piece@ == ls[k as int]);
        }
        if k == line {
            let m = if col < piece.len() {
                col
            } else {
                piece.len()
            };
            proof {
                lemma_blen_mono(piece@, m as int, piece@.len() as int);
                assert(piece@.subrange(0, m as int) =~= piece@.take(m as int));
            }
            let head = byte_len(vstd::slice::slice_subrange(piece, 0, m));
            return current + head;
        }
        let len = byte_len(piece);
        proof {
            assert(line_start(ls, k + 1) == line_start(ls, k as int) + blen(ls[k as int]) + 1);
            assert(line_start(ls, k as int) + blen(ls[k as int]) <= blen(text@));
        }
        current = current + len + 1;
        k += 1;
    }
    total
}

/// Byte length of a character sequence.
fn byte_len(s: &[char]) -> (r: usize)
    requires
        blen(s@) <= usize::MAX,
    ensures
        r == blen(s@),
{
    let mut t: usize = 0;
    let mut k: usize = 0;
    while k < s.len()
        invariant
            k <= s@.len(),
            blen(s@) <= usize::MAX,
            t == blen(s@.take(k as int)),
        decreases s@.len() - k,
    {
        let c = s[k];
        proof {
            lemma_blen_mono(s@, k as int + 1, s@.len() as int);
            assert(s@.take(k as int + 1) =~= s@.take(k as int) + seq![c]);
            lemma_blen_concat(s@.take(k as int), seq![c]);
            lemma_blen_single(c);
        }
        t += char_utf8_len(c);
        k += 1;
    }
    proof {
        assert(s@.take(s@.len() as int) =~= s@);
    }
    t
}


/// Finding the line of a byte in a list that starts with one more line.
proof fn lemma_line_of_byte_cons(p: Seq<char>, rest: Seq<Seq<char>>, k: int, q: int)
    requires
        0 <= k <= rest.len(),
    ensures
        line_of_byte(seq![p] + rest, k + 1, q) == match line_of_byte(rest, k, q - blen(p) - 1) {
            Some(j) => Some(j + 1),
            None => None,
        },
    decreases rest.len() - k,
{
    let x = seq![p] + rest;
    if k < rest.len() {
        lemma_line_start_cons(p, rest, k);
        assert(x[k + 1] == rest[k]);
        lemma_line_of_byte_cons(p, rest, k + 1, q);
    }
}

/// In a text without carriage returns, read from character `i` on: a byte
/// on a boundary whose line is found lies within that line, which starts
/// on a boundary, and the line's start plus its first characters up to the
/// byte's column make up the byte; a byte whose line is not found is the
/// end, after a final newline or in an empty text.
proof fn lemma_line_col_from(s: Seq<char>, i: int, q: int)
    requires
        0 <= i <= s.len(),
        forall|t: int| 0 <= t < s.len() ==> s[t] != '\r',
        is_boundary(s.subrange(i, s.len() as int), q),
    ensures
        ({
            let x = lines_from(s, i);
            let u = s.subrange(i, s.len() as int);
            match line_of_byte(x, 0, q) {
                Some(k) => {
                    let a = line_start(x, k);
                    let col = cidx(u, q) - cidx(u, a);
                    &&& 0 <= k < x.len()
                    &&& is_boundary(u, a)
                    &&& 0 <= col <= x[k].len()
                    &&& a + blen(x[k].take(col)) == q
                },
                None => q == blen(u) && (u.len() == 0 || u.last() == '\n'),
            }
        }),
    decreases s.len() - i,
{
    let n = s.len() as int;
    let x = lines_from(s, i);
    let u = s.subrange(i, n);
    if i == n {
        assert(x =~= Seq::<Seq<char>>::empty());
        assert(u =~= Seq::<char>::empty());
        lemma_boundary_split(u, q);
        crate::utf8len::lemma_blen_empty(u);
        return;
    }
    let j = next_nl(s, i);
    lemma_next_nl_bounds(s, i);
    let piece = line_piece(s, i, j);
    assert(piece =~= s.subrange(i, j)) by {
        if j < n && s.subrange(i, j).len() > 0 {
            assert(s.subrange(i, j).last() == s[j - 1]);
        }
    }
    let rest = lines_from(s, j + 1);
    assert(x == seq![piece] + rest);
    let u2 = s.subrange(j, n);
    assert(u =~= piece + u2);
    crate::utf8len::lemma_boundary_concat(piece, u2, q);
    lemma_boundary_split(u, q);
    if q <= blen(piece) {
        assert(line_of_byte(x, 0, q) == Some(0int));
        assert(x[0] == piece);
        lemma_boundary_split(piece, q);
        assert(cidx(u, 0) == 0);
        assert(is_boundary(u, 0));
        assert(u.take(cidx(u, q)) =~= piece.take(cidx(piece, q)));
    } else {
        assert(line_of_byte(x, 0, q) == line_of_byte(x, 1, q));
        lemma_line_of_byte_cons(piece, rest, 0, q);
        if j == n {
            assert(rest =~= Seq::<Seq<char>>::empty());
            assert(u2 =~= Seq::<char>::empty());
            crate::utf8len::lemma_blen_empty(u2);
            assert(u =~= piece);
        } else {
            let u3 = s.subrange(j + 1, n);
            let a = piece + seq!['\n'];
            assert(u =~= a + u3);
            crate::utf8len::lemma_blen_concat(piece, seq!['\n']);
            crate::utf8len::lemma_blen_single('\n');
            crate::utf8len::lemma_clen_bounds('\n');
            crate::utf8len::lemma_boundary_concat(a, u3, q);
            let q2 = q - blen(piece) - 1;
            lemma_line_col_from(s, j + 1, q2);
            crate::utf8len::lemma_blen_concat(a, u3);
            match line_of_byte(rest, 0, q2) {
                Some(k2) => {
                    let k = k2 + 1;
                    lemma_line_start_cons(piece, rest, k2);
                    assert(line_start(x, k) == blen(a) + line_start(rest, k2));
                    crate::utf8len::lemma_boundary_concat(a, u3, line_start(x, k));
                    assert(x[k] == rest[k2]);
                },
                None => {
                    if u3.len() > 0 {
                        assert(u.last() == u3.last());
                    } else {
                        assert(u.last() == '\n');
                    }
                },
            }
        }
    }
}

/// In a text without carriage returns, the byte of the (line, column) of a
/// byte on a character boundary is that byte: moving to a position and
/// reading it back agree.
pub proof fn law_line_col_round_trip(text: Seq<char>, p: int)
    requires
        is_boundary(text, p),
        forall|t: int| 0 <= t < text.len() ==> text[t] != '\r',
    ensures
        ({
            let (l, c) = byte_line_col(text, crate::gui::util::editor_lines(text).len(), p);
            line_col_byte(text, l, c) == p
        }),
{
    assert(text.subrange(0, text.len() as int) =~= text);
    lemma_line_col_from(text, 0, p);
    let ls = lines(text);
    match line_of_byte(ls, 0, p) {
        Some(k) => {},
        None => {
            if text.len() == 0 {
                assert(ls =~= Seq::<Seq<char>>::empty());
            }
        },
    }
}

} // verus!
