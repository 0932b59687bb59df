//! The rope's model: a rope is the sequence of its leaf texts. Every rope
//! operation is stated here as a function of that sequence, together with the
//! facts that tie it to the plain text it holds.
use vstd::prelude::*;
use vstd::seq_lib::lemma_flatten_concat;
use vstd::utf8::encode_utf8;
use crate::text::{lines, lines_from, next_nl, lemma_next_nl_bounds};
use crate::utf8len::{
    blen, cidx, is_boundary, lemma_blen_concat, lemma_blen_empty, lemma_boundary_concat,
    lemma_boundary_ends, lemma_boundary_split, lemma_cidx_from, lemma_cidx_take, lemma_blen_mono,
};

verus! {

/// Largest leaf, in bytes.
pub open spec fn chunk_limit() -> int {
    512
}

/// `lines().count().max(1)` of one leaf.
pub open spec fn leaf_line_count(s: Seq<char>) -> nat {
    if lines(s).len() == 0 {
        1
    } else {
        lines(s).len()
    }
}

/// Bytes held by a sequence of leaves.
pub open spec fn total(ls: Seq<Seq<char>>) -> nat {
    blen(ls.flatten())
}

/// Sum of the leaves' line counts.
pub open spec fn sum_line_counts(ls: Seq<Seq<char>>) -> nat
    decreases ls.len(),
{
    if ls.len() == 0 {
        0
    } else {
        leaf_line_count(ls[0]) + sum_line_counts(ls.drop_first())
    }
}

/// Sum of the leaves' `lines().count()`.
pub open spec fn sum_raw_lines(ls: Seq<Seq<char>>) -> nat
    decreases ls.len(),
{
    if ls.len() == 0 {
        0
    } else {
        lines(ls[0]).len() + sum_raw_lines(ls.drop_first())
    }
}

/// `t` put into `s` at byte `pos`; appended when `pos` is past the end.
pub open spec fn splice(s: Seq<char>, pos: int, t: Seq<char>) -> Seq<char> {
    if pos > blen(s) {
        s + t
    } else {
        s.take(cidx(s, pos)) + t + s.skip(cidx(s, pos))
    }
}

pub open spec fn clamp(x: int, n: int) -> int {
    if x < 0 {
        0
    } else if x > n {
        n
    } else {
        x
    }
}

/// The bytes `a..b` of `s`, clamped to `s`, removed.
pub open spec fn cut(s: Seq<char>, a: int, b: int) -> Seq<char> {
    let lo = clamp(a, blen(s) as int);
    let hi = clamp(b, blen(s) as int);
    s.take(cidx(s, lo)) + s.skip(cidx(s, hi))
}

/// Where a long leaf is split: the nearest `'\n'` to the middle, looking
/// `i` bytes right of the middle and then `i` bytes left of it for each `i`
/// below a quarter of the length (the split falls after that newline);
/// the middle itself when no such newline exists.
pub open spec fn split_search(b: Seq<u8>, mid: int, i: int, lim: int) -> int
    decreases lim - i,
{
    if i >= lim {
        mid
    } else if mid + i < b.len() && b[mid + i] == 10 {
        mid + i + 1
    } else if mid >= i && b[mid - i] == 10 {
        mid - i + 1
    } else {
        split_search(b, mid, i + 1, lim)
    }
}

pub open spec fn split_point(b: Seq<u8>) -> int {
    split_search(b, (b.len() / 2) as int, 0, (b.len() / 4) as int)
}

/// The leaves a text is cut into: whole when it fits a leaf, otherwise the
/// leaves of the two halves around its split point.
pub open spec fn chunks(s: Seq<char>) -> Seq<Seq<char>>
    decreases s.len(),
{
    if blen(s) <= chunk_limit() {
        seq![s]
    } else {
        let k = cidx(s, split_point(encode_utf8(s)));
        if 0 < k < s.len() {
            chunks(s.take(k)) + chunks(s.skip(k))
        } else {
            seq![s]
        }
    }
}

/// Every split point of `chunks(s)` falls between characters.
pub open spec fn chunks_ok(s: Seq<char>) -> bool
    decreases s.len(),
{
    blen(s) <= chunk_limit() || {
        let m = split_point(encode_utf8(s));
        let k = cidx(s, m);
        &&& is_boundary(s, m)
        &&& 0 < k < s.len()
        &&& chunks_ok(s.take(k))
        &&& chunks_ok(s.skip(k))
    }
}

/// The leaf that receives an insertion at byte `pos` is the first one that
/// ends at or after `pos`, or the last one; it is replaced by the chunks of
/// its new text.
pub open spec fn insert_leaves(ls: Seq<Seq<char>>, pos: int, t: Seq<char>) -> Seq<Seq<char>>
    decreases ls.len(),
{
    if t.len() == 0 || ls.len() == 0 {
        ls
    } else if ls.len() == 1 || pos <= blen(ls[0]) {
        chunks(splice(ls[0], pos, t)) + ls.drop_first()
    } else {
        seq![ls[0]] + insert_leaves(ls.drop_first(), pos - blen(ls[0]), t)
    }
}

/// The receiving leaf's new text can be cut into leaves between characters.
pub open spec fn chunks_fit(ls: Seq<Seq<char>>, pos: int, t: Seq<char>) -> bool
    decreases ls.len(),
{
    if t.len() == 0 || ls.len() == 0 {
        true
    } else if ls.len() == 1 || pos <= blen(ls[0]) {
        chunks_ok(splice(ls[0], pos, t))
    } else {
        chunks_fit(ls.drop_first(), pos - blen(ls[0]), t)
    }
}

/// `chunks_fit`, and `pos` splits the receiving leaf between characters.
pub open spec fn insert_fits(ls: Seq<Seq<char>>, pos: int, t: Seq<char>) -> bool
    decreases ls.len(),
{
    if t.len() == 0 || ls.len() == 0 {
        true
    } else if ls.len() == 1 || pos <= blen(ls[0]) {
        (pos > blen(ls[0]) || is_boundary(ls[0], pos)) && chunks_ok(splice(ls[0], pos, t))
    } else {
        insert_fits(ls.drop_first(), pos - blen(ls[0]), t)
    }
}

/// Each leaf with the bytes `a..b` (relative to the leaf) removed; leaves left
/// empty are dropped.
pub open spec fn cut_leaves(ls: Seq<Seq<char>>, a: int, b: int) -> Seq<Seq<char>>
    decreases ls.len(),
{
    if ls.len() == 0 {
        seq![]
    } else {
        let c = cut(ls[0], a, b);
        let rest = cut_leaves(ls.drop_first(), a - blen(ls[0]), b - blen(ls[0]));
        if c.len() == 0 {
            rest
        } else {
            seq![c] + rest
        }
    }
}

/// Each leaf's share of the bytes `a..b` starts and ends between characters.
pub open spec fn cut_fits(ls: Seq<Seq<char>>, a: int, b: int) -> bool
    decreases ls.len(),
{
    ls.len() == 0 || {
        &&& is_boundary(ls[0], clamp(a, blen(ls[0]) as int))
        &&& is_boundary(ls[0], clamp(b, blen(ls[0]) as int))
        &&& cut_fits(ls.drop_first(), a - blen(ls[0]), b - blen(ls[0]))
    }
}

/// Leaves after removing the bytes `a..b`: nothing changes when `a >= b`;
/// when every leaf is left empty a single empty leaf remains.
pub open spec fn delete_leaves(ls: Seq<Seq<char>>, a: int, b: int) -> Seq<Seq<char>> {
    if a >= b {
        ls
    } else {
        let f = cut_leaves(ls, a, b);
        if f.len() == 0 {
            seq![seq![]]
        } else {
            f
        }
    }
}

/// Line `idx` of `s` (see [`lines`]); empty when there are fewer lines.
pub open spec fn text_line(s: Seq<char>, idx: int) -> Seq<char> {
    if 0 <= idx < lines(s).len() {
        lines(s)[idx]
    } else {
        seq![]
    }
}

/// The character at `pos` of the leaf that holds byte `pos` (the last leaf
/// when none does), where `pos` is taken, relative to that leaf, as a
/// character index.
pub open spec fn char_in_leaves(ls: Seq<Seq<char>>, pos: int) -> Option<char>
    decreases ls.len(),
{
    if ls.len() == 0 {
        None
    } else if ls.len() == 1 || pos < blen(ls[0]) {
        if 0 <= pos < ls[0].len() {
            Some(ls[0][pos])
        } else {
            None
        }
    } else {
        char_in_leaves(ls.drop_first(), pos - blen(ls[0]))
    }
}

/// A well-formed leaf sequence: one leaf (possibly empty), or several
/// non-empty leaves; no leaf is longer than the chunk limit.
pub open spec fn leaves_ok(ls: Seq<Seq<char>>) -> bool {
    &&& ls.len() >= 1
    &&& forall|j: int| 0 <= j < ls.len() ==> blen(#[trigger] ls[j]) <= chunk_limit()
    &&& ls.len() > 1 ==> forall|j: int| 0 <= j < ls.len() ==> (#[trigger] ls[j]).len() > 0
}

// ---------------------------------------------------------------------
// Facts about leaf sequences
// ---------------------------------------------------------------------

pub proof fn lemma_total_cons(ls: Seq<Seq<char>>)
    requires
        ls.len() > 0,
    ensures
        ls.flatten() == ls[0] + ls.drop_first().flatten(),
        total(ls) == blen(ls[0]) + total(ls.drop_first()),
{
    assert(ls.flatten() == ls.first() + ls.drop_first().flatten());
    lemma_blen_concat(ls[0], ls.drop_first().flatten());
}

pub proof fn lemma_total_concat(a: Seq<Seq<char>>, b: Seq<Seq<char>>)
    ensures
        (a + b).flatten() == a.flatten() + b.flatten(),
        total(a + b) == total(a) + total(b),
{
    lemma_flatten_concat(a, b);
    lemma_blen_concat(a.flatten(), b.flatten());
}

pub proof fn lemma_sum_lines_concat(a: Seq<Seq<char>>, b: Seq<Seq<char>>)
    ensures
        sum_line_counts(a + b) == sum_line_counts(a) + sum_line_counts(b),
        sum_raw_lines(a + b) == sum_raw_lines(a) + sum_raw_lines(b),
    decreases a.len(),
{
    if a.len() == 0 {
        assert(a + b =~= b);
    } else {
        assert((a + b).drop_first() =~= a.drop_first() + b);
        lemma_sum_lines_concat(a.drop_first(), b);
    }
}

pub proof fn lemma_lines_from_len(s: Seq<char>, i: int)
    requires
        0 <= i <= s.len() + 1,
    ensures
        lines_from(s, i).len() <= if i <= s.len() { s.len() - i } else { 0 },
    decreases s.len() + 1 - i,
{
    if i < s.len() {
        lemma_next_nl_bounds(s, i);
        lemma_lines_from_len(s, next_nl(s, i) + 1);
    }
}

/// A leaf counts at most one line per character, and at least one line.
pub proof fn lemma_leaf_line_count(s: Seq<char>)
    ensures
        1 <= leaf_line_count(s),
        lines(s).len() <= s.len(),
        leaf_line_count(s) <= if s.len() == 0 { 1 } else { s.len() },
        s.len() <= blen(s),
{
    lemma_lines_from_len(s, 0);
    lemma_blen_empty(s);
}

/// Line counts never exceed the bytes of non-empty leaves.
pub proof fn lemma_sum_lines_bound(ls: Seq<Seq<char>>)
    requires
        forall|j: int| 0 <= j < ls.len() ==> (#[trigger] ls[j]).len() > 0,
    ensures
        sum_line_counts(ls) <= total(ls),
        sum_raw_lines(ls) <= sum_line_counts(ls),
    decreases ls.len(),
{
    if ls.len() > 0 {
        lemma_total_cons(ls);
        lemma_leaf_line_count(ls[0]);
        assert forall|j: int| 0 <= j < ls.drop_first().len() implies (
        #[trigger] ls.drop_first()[j]).len() > 0 by {
            assert(ls.drop_first()[j] == ls[j + 1]);
        }
        lemma_sum_lines_bound(ls.drop_first());
    }
}

/// The chunks of a text, put back together, are the text; each chunk fits a
/// leaf and is non-empty when the text is.
pub proof fn lemma_chunks(s: Seq<char>)
    requires
        chunks_ok(s),
    ensures
        chunks(s).flatten() == s,
        chunks(s).len() >= 1,
        forall|j: int| 0 <= j < chunks(s).len() ==> blen(#[trigger] chunks(s)[j]) <= chunk_limit(),
        s.len() > 0 ==> forall|j: int| 0 <= j < chunks(s).len() ==> (#[trigger] chunks(s)[j]).len() > 0,
        chunks(s).len() > 1 ==> forall|j: int| 0 <= j < chunks(s).len() ==> (#[trigger] chunks(s)[j]).len() > 0,
        total(chunks(s)) == blen(s),
    decreases s.len(),
{
    if blen(s) <= chunk_limit() {
        assert(seq![s].drop_first() =~= Seq::<Seq<char>>::empty());
        lemma_total_cons(seq![s]);
        assert(seq![s].flatten() =~= s);
        lemma_blen_empty(s);
    } else {
        let k = cidx(s, split_point(encode_utf8(s)));
        lemma_chunks(s.take(k));
        lemma_chunks(s.skip(k));
        lemma_total_concat(chunks(s.take(k)), chunks(s.skip(k)));
        assert(s.take(k) + s.skip(k) =~= s);
        let c = chunks(s);
        let c1 = chunks(s.take(k));
        let c2 = chunks(s.skip(k));
        assert forall|j: int| 0 <= j < c.len() implies blen(#[trigger] c[j]) <= chunk_limit()
            && c[j].len() > 0 by {
            if j < c1.len() {
                assert(c[j] == c1[j]);
            } else {
                assert(c[j] == c2[j - c1.len()]);
            }
        }
    }
}

/// A single non-empty leaf of a sequence of non-empty leaves stays non-empty.
pub proof fn lemma_leaves_ok_concat(a: Seq<Seq<char>>, b: Seq<Seq<char>>)
    requires
        leaves_ok(a),
        leaves_ok(b),
        total(a) > 0,
        total(b) > 0,
    ensures
        leaves_ok(a + b),
{
    lemma_single_nonempty(a);
    lemma_single_nonempty(b);
    assert forall|j: int| 0 <= j < (a + b).len() implies blen(#[trigger] (a + b)[j])
        <= chunk_limit() && (a + b)[j].len() > 0 by {
        if j < a.len() {
            assert((a + b)[j] == a[j]);
        } else {
            assert((a + b)[j] == b[j - a.len()]);
        }
    }
}

/// A well-formed sequence with bytes in it has no empty leaf.
pub proof fn lemma_single_nonempty(a: Seq<Seq<char>>)
    requires
        leaves_ok(a),
        total(a) > 0,
    ensures
        forall|j: int| 0 <= j < a.len() ==> (#[trigger] a[j]).len() > 0,
{
    if a.len() == 1 {
        lemma_total_cons(a);
        assert(a.drop_first() =~= Seq::<Seq<char>>::empty());
        assert(a.drop_first().flatten() =~= Seq::<char>::empty());
        lemma_blen_empty(a[0]);
        lemma_blen_empty(a.drop_first().flatten());
    }
}

} // verus!

verus! {

/// An insertion reaches the left part of a sequence when `pos` is within it.
pub proof fn lemma_insert_split(a: Seq<Seq<char>>, b: Seq<Seq<char>>, pos: int, t: Seq<char>)
    requires
        a.len() >= 1,
        b.len() >= 1,
        t.len() > 0,
    ensures
        pos <= total(a) ==> insert_leaves(a + b, pos, t) == insert_leaves(a, pos, t) + b,
        pos <= total(a) ==> insert_fits(a + b, pos, t) == insert_fits(a, pos, t),
        pos > total(a) ==> insert_leaves(a + b, pos, t) == a + insert_leaves(
            b,
            pos - total(a),
            t,
        ),
        pos > total(a) ==> insert_fits(a + b, pos, t) == insert_fits(b, pos - total(a), t),
    decreases a.len(),
{
    lemma_total_cons(a);
    assert((a + b)[0] == a[0]);
    assert((a + b).drop_first() =~= a.drop_first() + b);
    if a.len() == 1 {
        assert(a.drop_first() =~= Seq::<Seq<char>>::empty());
        assert(total(a.drop_first()) == 0) by {
            assert(a.drop_first().flatten() =~= Seq::<char>::empty());
        }
        if pos <= total(a) {
            assert(insert_leaves(a, pos, t) =~= chunks(splice(a[0], pos, t)) + a.drop_first());
            assert(chunks(splice(a[0], pos, t)) + (a.drop_first() + b) =~= chunks(
                splice(a[0], pos, t),
            ) + a.drop_first() + b);
        } else {
            assert(seq![a[0]] + insert_leaves(b, pos - blen(a[0]), t) =~= a + insert_leaves(
                b,
                pos - total(a),
                t,
            ));
        }
    } else {
        let a1 = a.drop_first();
        lemma_insert_split(a1, b, pos - blen(a[0]), t);
        if pos <= blen(a[0]) {
            assert(chunks(splice(a[0], pos, t)) + (a1 + b) =~= chunks(splice(a[0], pos, t)) + a1
                + b);
        } else if pos <= total(a) {
            assert(seq![a[0]] + (insert_leaves(a1, pos - blen(a[0]), t) + b) =~= seq![a[0]]
                + insert_leaves(a1, pos - blen(a[0]), t) + b);
        } else {
            assert(seq![a[0]] + (a1 + insert_leaves(b, pos - total(a), t)) =~= a + insert_leaves(
                b,
                pos - total(a),
                t,
            ));
        }
    }
}

/// Cutting a concatenation cuts each part at its own offset.
pub proof fn lemma_cut_split(a: Seq<Seq<char>>, b: Seq<Seq<char>>, x: int, y: int)
    ensures
        cut_leaves(a + b, x, y) == cut_leaves(a, x, y) + cut_leaves(b, x - total(a), y - total(a)),
        cut_fits(a + b, x, y) == (cut_fits(a, x, y) && cut_fits(b, x - total(a), y - total(a))),
    decreases a.len(),
{
    if a.len() == 0 {
        assert(a + b =~= b);
        assert(a.flatten() =~= Seq::<char>::empty());
        assert(cut_leaves(a, x, y) + cut_leaves(b, x, y) =~= cut_leaves(b, x, y));
    } else {
        lemma_total_cons(a);
        assert((a + b)[0] == a[0]);
        assert((a + b).drop_first() =~= a.drop_first() + b);
        lemma_cut_split(a.drop_first(), b, x - blen(a[0]), y - blen(a[0]));
        let c = cut(a[0], x, y);
        let r1 = cut_leaves(a.drop_first(), x - blen(a[0]), y - blen(a[0]));
        let r2 = cut_leaves(b, x - total(a), y - total(a));
        assert(seq![c] + (r1 + r2) =~= seq![c] + r1 + r2);
    }
}

/// Leaves outside the removed bytes are kept as they are.
pub proof fn lemma_cut_untouched(ls: Seq<Seq<char>>, x: int, y: int)
    requires
        forall|j: int| 0 <= j < ls.len() ==> (#[trigger] ls[j]).len() > 0,
        x <= y,
        y <= 0 || x >= total(ls),
    ensures
        cut_leaves(ls, x, y) == ls,
        cut_fits(ls, x, y),
    decreases ls.len(),
{
    if ls.len() > 0 {
        lemma_total_cons(ls);
        let s = ls[0];
        lemma_boundary_ends(s, 0);
        assert(s.subrange(0, s.len() as int) =~= s);
        lemma_cidx_from(s, 0, blen(s) as int);
        lemma_cidx_from(s, 0, 0);
        assert(s.take(0) + s.skip(0) =~= s);
        assert(s.take(s.len() as int) + s.skip(s.len() as int) =~= s);
        assert forall|j: int| 0 <= j < ls.drop_first().len() implies (
        #[trigger] ls.drop_first()[j]).len() > 0 by {
            assert(ls.drop_first()[j] == ls[j + 1]);
        }
        lemma_cut_untouched(ls.drop_first(), x - blen(s), y - blen(s));
        assert(seq![s] + ls.drop_first() =~= ls);
    }
}

/// Cutting depends on the start only through its clamped value.
pub proof fn lemma_cut_lo(ls: Seq<Seq<char>>, x: int, x2: int, y: int)
    requires
        x <= 0,
        x2 <= 0,
    ensures
        cut_leaves(ls, x, y) == cut_leaves(ls, x2, y),
        cut_fits(ls, x, y) == cut_fits(ls, x2, y),
    decreases ls.len(),
{
    if ls.len() > 0 {
        lemma_cut_lo(ls.drop_first(), x - blen(ls[0]), x2 - blen(ls[0]), y - blen(ls[0]));
    }
}

/// Cutting depends on the end only through its clamped value.
pub proof fn lemma_cut_hi(ls: Seq<Seq<char>>, x: int, y: int, y2: int)
    requires
        y >= total(ls),
        y2 >= total(ls),
    ensures
        cut_leaves(ls, x, y) == cut_leaves(ls, x, y2),
        cut_fits(ls, x, y) == cut_fits(ls, x, y2),
    decreases ls.len(),
{
    if ls.len() > 0 {
        lemma_total_cons(ls);
        lemma_cut_hi(ls.drop_first(), x - blen(ls[0]), y - blen(ls[0]), y2 - blen(ls[0]));
    }
}

/// Character lookups go to the part that holds the byte.
pub proof fn lemma_char_split(a: Seq<Seq<char>>, b: Seq<Seq<char>>, pos: int)
    requires
        a.len() >= 1,
        b.len() >= 1,
    ensures
        pos < total(a) ==> char_in_leaves(a + b, pos) == char_in_leaves(a, pos),
        pos >= total(a) ==> char_in_leaves(a + b, pos) == char_in_leaves(b, pos - total(a)),
    decreases a.len(),
{
    lemma_total_cons(a);
    assert((a + b)[0] == a[0]);
    assert((a + b).drop_first() =~= a.drop_first() + b);
    if a.len() == 1 {
        assert(a.drop_first() =~= Seq::<Seq<char>>::empty());
        assert(a.drop_first().flatten() =~= Seq::<char>::empty());
    } else {
        lemma_char_split(a.drop_first(), b, pos - blen(a[0]));
    }
}

/// Facts about the end of a text as a boundary.
pub proof fn lemma_end_boundary(s: Seq<char>)
    ensures
        is_boundary(s, blen(s) as int),
        cidx(s, blen(s) as int) == s.len(),
        is_boundary(s, 0),
        cidx(s, 0) == 0,
{
    lemma_boundary_ends(s, 0);
    assert(s.subrange(0, s.len() as int) =~= s);
    lemma_cidx_from(s, 0, blen(s) as int);
    lemma_cidx_from(s, 0, 0);
}

/// Splicing into the first part of a concatenation.
pub proof fn lemma_splice_concat(a: Seq<char>, b: Seq<char>, pos: int, t: Seq<char>)
    requires
        pos <= blen(a) ==> is_boundary(a, pos),
        pos > blen(a) ==> (pos - blen(a) > blen(b) || is_boundary(b, pos - blen(a))),
    ensures
        pos <= blen(a) ==> splice(a + b, pos, t) == splice(a, pos, t) + b,
        pos > blen(a) ==> splice(a + b, pos, t) == a + splice(b, pos - blen(a), t),
{
    lemma_blen_concat(a, b);
    lemma_boundary_concat(a, b, pos);
    if pos <= blen(a) {
        lemma_boundary_split(a, pos);
        let k = cidx(a, pos);
        assert((a + b).take(k) =~= a.take(k));
        assert((a + b).skip(k) =~= a.skip(k) + b);
        assert(a.take(k) + t + (a.skip(k) + b) =~= a.take(k) + t + a.skip(k) + b);
    } else if pos - blen(a) > blen(b) {
        assert(a + b + t =~= a + (b + t));
    } else {
        lemma_boundary_split(b, pos - blen(a));
        let k = cidx(b, pos - blen(a));
        assert((a + b).take(a.len() + k) =~= a + b.take(k));
        assert((a + b).skip(a.len() + k) =~= b.skip(k));
        assert(a + b.take(k) + t + b.skip(k) =~= a + (b.take(k) + t + b.skip(k)));
    }
}

/// The length and boundaries of a splice.
pub proof fn lemma_splice_len(s: Seq<char>, pos: int, t: Seq<char>)
    requires
        pos > blen(s) || is_boundary(s, pos),
    ensures
        blen(splice(s, pos, t)) == blen(s) + blen(t),
        splice(s, pos, t).len() == s.len() + t.len(),
{
    if pos > blen(s) {
        lemma_blen_concat(s, t);
    } else {
        lemma_boundary_split(s, pos);
        let k = cidx(s, pos);
        lemma_blen_concat(s.take(k), t);
        lemma_blen_concat(s.take(k) + t, s.skip(k));
        assert(s =~= s.take(k) + s.skip(k));
        lemma_blen_concat(s.take(k), s.skip(k));
    }
}

/// What an insertion does to the text and where it may happen: `pos` must
/// fall between characters of the whole text (or past its end), and the
/// result is the whole text with `t` spliced in.
pub proof fn lemma_insert_content(ls: Seq<Seq<char>>, pos: int, t: Seq<char>)
    requires
        ls.len() >= 1,
        t.len() > 0,
    ensures
        insert_fits(ls, pos, t) == ((pos > total(ls) || is_boundary(ls.flatten(), pos))
            && chunks_fit(ls, pos, t)),
        insert_fits(ls, pos, t) ==> insert_leaves(ls, pos, t).flatten() == splice(
            ls.flatten(),
            pos,
            t,
        ),
        insert_fits(ls, pos, t) ==> total(insert_leaves(ls, pos, t)) == total(ls) + blen(t),
    decreases ls.len(),
{
    lemma_total_cons(ls);
    let s = ls[0];
    let r = ls.drop_first();
    lemma_boundary_concat(s, r.flatten(), pos);
    if ls.len() == 1 {
        assert(r =~= Seq::<Seq<char>>::empty());
        assert(r.flatten() =~= Seq::<char>::empty());
        assert(s + r.flatten() =~= s);
        if insert_fits(ls, pos, t) {
            lemma_chunks(splice(s, pos, t));
            assert(insert_leaves(ls, pos, t) =~= chunks(splice(s, pos, t)));
            lemma_splice_len(s, pos, t);
        }
    } else if pos <= blen(s) {
        if insert_fits(ls, pos, t) {
            lemma_chunks(splice(s, pos, t));
            lemma_total_concat(chunks(splice(s, pos, t)), r);
            lemma_splice_concat(s, r.flatten(), pos, t);
            lemma_splice_len(s, pos, t);
            lemma_blen_concat(s, r.flatten());
        }
    } else {
        lemma_insert_content(r, pos - blen(s), t);
        if insert_fits(ls, pos, t) {
            lemma_total_concat(seq![s], insert_leaves(r, pos - blen(s), t));
            lemma_total_cons(seq![s]);
            assert(seq![s].drop_first() =~= Seq::<Seq<char>>::empty());
            assert(seq![s].drop_first().flatten() =~= Seq::<char>::empty());
            assert(s + Seq::<char>::empty() =~= s);
            lemma_splice_concat(s, r.flatten(), pos, t);
            lemma_blen_concat(s, Seq::<char>::empty());
        }
    }
}

/// A cut of a concatenation is the cuts of the parts, when both ends fall
/// between characters.
pub proof fn lemma_cut_concat(a: Seq<char>, b: Seq<char>, x: int, y: int)
    requires
        x <= y,
    ensures
        (is_boundary(a + b, clamp(x, (blen(a) + blen(b)) as int)) && is_boundary(a + b, clamp(y, (blen(a) + blen(b)) as int)))
            == (is_boundary(a, clamp(x, blen(a) as int)) && is_boundary(a, clamp(y, blen(a) as int))
            && is_boundary(b, clamp(x - blen(a), blen(b) as int)) && is_boundary(
            b,
            clamp(y - blen(a), blen(b) as int),
        )),
        is_boundary(a + b, clamp(x, (blen(a) + blen(b)) as int)) && is_boundary(
            a + b,
            clamp(y, (blen(a) + blen(b)) as int),
        ) ==> cut(a + b, x, y) == cut(a, x, y) + cut(b, x - blen(a), y - blen(a)),
{
    let n = (blen(a) + blen(b)) as int;
    lemma_blen_concat(a, b);
    lemma_end_boundary(a);
    lemma_end_boundary(b);
    let lo = clamp(x, n);
    let hi = clamp(y, n);
    lemma_boundary_concat(a, b, lo);
    lemma_boundary_concat(a, b, hi);
    if is_boundary(a + b, lo) && is_boundary(a + b, hi) {
        let xa = clamp(x, blen(a) as int);
        let xb = clamp(x - blen(a), blen(b) as int);
        let ya = clamp(y, blen(a) as int);
        let yb = clamp(y - blen(a), blen(b) as int);
        lemma_boundary_split(a, xa);
        lemma_boundary_split(a, ya);
        lemma_boundary_split(b, xb);
        lemma_boundary_split(b, yb);
        let ka = cidx(a, xa);
        let kb = cidx(b, xb);
        let ka2 = cidx(a, ya);
        let kb2 = cidx(b, yb);
        if lo <= blen(a) {
            assert(xa == lo);
            assert(xb == 0);
            assert(kb == 0);
            assert(cidx(a + b, lo) == ka);
            assert((a + b).take(cidx(a + b, lo)) =~= a.take(ka) + b.take(kb));
        } else {
            assert(xa == blen(a));
            assert(ka == a.len());
            assert(xb == lo - blen(a));
            assert(cidx(a + b, lo) == a.len() + kb);
            assert((a + b).take(cidx(a + b, lo)) =~= a.take(ka) + b.take(kb));
        }
        if hi <= blen(a) {
            assert(ya == hi);
            assert(yb == 0);
            assert(kb2 == 0);
            assert(cidx(a + b, hi) == ka2);
            assert((a + b).skip(cidx(a + b, hi)) =~= a.skip(ka2) + b.skip(kb2));
        } else {
            assert(ya == blen(a));
            assert(ka2 == a.len());
            assert(yb == hi - blen(a));
            assert(cidx(a + b, hi) == a.len() + kb2);
            assert((a + b).skip(cidx(a + b, hi)) =~= a.skip(ka2) + b.skip(kb2));
        }
        if lo <= blen(a) {
            assert(b.take(kb) =~= Seq::<char>::empty());
            assert(a.take(ka) + b.take(kb) + (a.skip(ka2) + b.skip(kb2)) =~= a.take(ka) + a.skip(
                ka2,
            ) + (b.take(kb) + b.skip(kb2)));
        } else {
            assert(a.skip(ka2) =~= Seq::<char>::empty());
            assert(a.take(ka) + b.take(kb) + (a.skip(ka2) + b.skip(kb2)) =~= a.take(ka) + a.skip(
                ka2,
            ) + (b.take(kb) + b.skip(kb2)));
        }
    }
}

/// What a deletion does to the text and where it may happen: both ends
/// (clamped to the text) must fall between characters, and the result is
/// the text with those bytes removed.
pub proof fn lemma_cut_content(ls: Seq<Seq<char>>, x: int, y: int)
    requires
        x <= y,
    ensures
        cut_fits(ls, x, y) == (is_boundary(ls.flatten(), clamp(x, total(ls) as int))
            && is_boundary(ls.flatten(), clamp(y, total(ls) as int))),
        cut_fits(ls, x, y) ==> cut_leaves(ls, x, y).flatten() == cut(ls.flatten(), x, y),
    decreases ls.len(),
{
    if ls.len() == 0 {
        assert(ls.flatten() =~= Seq::<char>::empty());
        lemma_end_boundary(ls.flatten());
        assert(cut_leaves(ls, x, y).flatten() =~= Seq::<char>::empty());
        assert(cut(ls.flatten(), x, y) =~= Seq::<char>::empty());
    } else {
        lemma_total_cons(ls);
        let s = ls[0];
        let r = ls.drop_first();
        lemma_cut_content(r, x - blen(s), y - blen(s));
        lemma_cut_concat(s, r.flatten(), x, y);
        if cut_fits(ls, x, y) {
            let c = cut(s, x, y);
            let rest = cut_leaves(r, x - blen(s), y - blen(s));
            if c.len() == 0 {
                assert(c + rest.flatten() =~= rest.flatten());
            } else {
                lemma_total_cons(seq![c] + rest);
                assert((seq![c] + rest)[0] == c);
                assert((seq![c] + rest).drop_first() =~= rest);
            }
        }
    }
}

/// A cut never adds bytes.
pub proof fn lemma_cut_len(s: Seq<char>, x: int, y: int)
    requires
        x <= y,
        is_boundary(s, clamp(x, blen(s) as int)),
        is_boundary(s, clamp(y, blen(s) as int)),
    ensures
        blen(cut(s, x, y)) <= blen(s),
{
    let lo = clamp(x, blen(s) as int);
    let hi = clamp(y, blen(s) as int);
    lemma_boundary_split(s, lo);
    lemma_boundary_split(s, hi);
    lemma_blen_concat(s.take(cidx(s, lo)), s.skip(cidx(s, hi)));
}

} // verus!

verus! {

/// The leaves a cut leaves behind are non-empty.
pub proof fn lemma_cut_leaves_nonempty(ls: Seq<Seq<char>>, a: int, b: int)
    ensures
        forall|j: int|
            0 <= j < cut_leaves(ls, a, b).len() ==> (#[trigger] cut_leaves(ls, a, b)[j]).len() > 0,
        cut_leaves(ls, a, b).len() > 0 ==> total(cut_leaves(ls, a, b)) > 0,
    decreases ls.len(),
{
    if ls.len() > 0 {
        lemma_cut_leaves_nonempty(ls.drop_first(), a - blen(ls[0]), b - blen(ls[0]));
        let c = cut(ls[0], a, b);
        let rest = cut_leaves(ls.drop_first(), a - blen(ls[0]), b - blen(ls[0]));
        if c.len() != 0 {
            assert forall|j: int| 0 <= j < (seq![c] + rest).len() implies (#[trigger] (seq![c]
                + rest)[j]).len() > 0 by {
                if j > 0 {
                    assert((seq![c] + rest)[j] == rest[j - 1]);
                }
            }
        }
    }
    let f = cut_leaves(ls, a, b);
    if f.len() > 0 {
        lemma_total_cons(f);
        lemma_blen_empty(f[0]);
    }
}

/// The total of a single leaf is its length.
pub proof fn lemma_total_single(s: Seq<char>)
    ensures
        seq![s].flatten() == s,
        total(seq![s]) == blen(s),
        sum_line_counts(seq![s]) == leaf_line_count(s),
        sum_raw_lines(seq![s]) == lines(s).len(),
{
    lemma_total_cons(seq![s]);
    assert(seq![s].drop_first() =~= Seq::<Seq<char>>::empty());
    assert(seq![s].drop_first().flatten() =~= Seq::<char>::empty());
    assert(s + Seq::<char>::empty() =~= s);
    assert(sum_line_counts(seq![s].drop_first()) == 0);
    assert(sum_raw_lines(seq![s].drop_first()) == 0);
}

} // verus!

verus! {

/// `s` holds the text `a` starting at byte `pos`.
pub open spec fn holds_at(s: Seq<char>, pos: int, a: Seq<char>) -> bool {
    &&& is_boundary(s, pos)
    &&& is_boundary(s, pos + blen(a))
    &&& s.subrange(cidx(s, pos), cidx(s, pos + blen(a))) == a
}

/// `s` with the text `a` that it holds at byte `pos` replaced by `b`.
pub open spec fn replace_at(s: Seq<char>, pos: int, a: Seq<char>, b: Seq<char>) -> Seq<char> {
    s.take(cidx(s, pos)) + b + s.skip(cidx(s, pos + blen(a)))
}

/// Replacing `a` by `b` and then `b` by `a` at the same byte gives back the
/// text: an edit and its undo cancel out, and so do an undo and its redo.
pub proof fn law_replace_inverse(s: Seq<char>, pos: int, a: Seq<char>, b: Seq<char>)
    requires
        holds_at(s, pos, a),
    ensures
        holds_at(replace_at(s, pos, a, b), pos, b),
        replace_at(replace_at(s, pos, a, b), pos, b, a) == s,
        blen(replace_at(s, pos, a, b)) + blen(a) == blen(s) + blen(b),
{
    let k = cidx(s, pos);
    let k2 = cidx(s, pos + blen(a));
    lemma_boundary_split(s, pos);
    lemma_boundary_split(s, pos + blen(a));
    let r = replace_at(s, pos, a, b);
    assert(k <= k2) by {
        if k2 < k {
            lemma_blen_mono(s, k2, k);
        }
    }
    assert(s =~= s.take(k) + a + s.skip(k2));
    assert(r.take(k) =~= s.take(k));
    assert(r.take(k + b.len()) =~= s.take(k) + b);
    lemma_blen_concat(s.take(k), b);
    lemma_cidx_take(r, k);
    lemma_cidx_take(r, k + b.len());
    assert(r.subrange(k, k + b.len()) =~= b);
    assert(r.skip(k + b.len()) =~= s.skip(k2));
    assert(s.take(k) + a + s.skip(k2) =~= replace_at(r, pos, b, a));
    lemma_blen_concat(s.take(k) + a, s.skip(k2));
    lemma_blen_concat(s.take(k), a);
    lemma_blen_concat(s.take(k) + b, s.skip(k2));
}

/// Replacing the bytes `start..end` by `new_text` and undoing it gives back
/// the text; redoing it after the undo gives the edited text again.
pub proof fn law_undo_edit(t: Seq<char>, start: int, end: int, new_text: Seq<char>)
    requires
        start <= end,
        is_boundary(t, start),
        is_boundary(t, end),
    ensures
        ({
            let ks = cidx(t, start);
            let ke = cidx(t, end);
            let edited = t.take(ks) + new_text + t.skip(ke);
            let removed = t.subrange(ks, ke);
            &&& replace_at(edited, start, new_text, removed) == t
            &&& replace_at(t, start, removed, new_text) == edited
        }),
{
    let ks = cidx(t, start);
    let ke = cidx(t, end);
    lemma_boundary_split(t, start);
    lemma_boundary_split(t, end);
    assert(ks <= ke) by {
        if ke < ks {
            lemma_blen_mono(t, ke, ks);
        }
    }
    lemma_blen_mono(t, ks, ke);
    let removed = t.subrange(ks, ke);
    assert(holds_at(t, start, removed));
    law_replace_inverse(t, start, removed, new_text);
}

/// Deleting the bytes just inserted gives back the text.
pub proof fn law_insert_then_delete(s: Seq<char>, pos: int, t: Seq<char>)
    requires
        is_boundary(s, pos),
    ensures
        cut(splice(s, pos, t), pos, pos + blen(t)) == s,
{
    lemma_boundary_split(s, pos);
    let k = cidx(s, pos);
    let u = splice(s, pos, t);
    assert(u == s.take(k) + t + s.skip(k));
    assert(u.take(k) =~= s.take(k));
    assert(u.take(k + t.len()) =~= s.take(k) + t);
    lemma_blen_concat(s.take(k), t);
    lemma_blen_concat(s.take(k) + t, s.skip(k));
    lemma_cidx_take(u, k);
    lemma_cidx_take(u, k + t.len());
    assert(u.skip(k + t.len()) =~= s.skip(k));
    assert(s.take(k) + s.skip(k) =~= s);
}

/// Every character is ASCII.
pub open spec fn ascii(s: Seq<char>) -> bool {
    forall|k: int| 0 <= k < s.len() ==> (#[trigger] s[k] as u32) < 0x80
}

proof fn lemma_ascii_blen(s: Seq<char>)
    requires
        ascii(s),
    ensures
        blen(s) == s.len(),
    decreases s.len(),
{
    if s.len() > 0 {
        crate::utf8len::lemma_blen_cons(s);
        crate::utf8len::lemma_clen_bounds(s[0]);
        assert(ascii(s.drop_first())) by {
            assert forall|k: int| 0 <= k < s.drop_first().len() implies (#[trigger] s.drop_first()[
                k
            ] as u32) < 0x80 by {
                assert(s.drop_first()[k] == s[k + 1]);
            }
        }
        lemma_ascii_blen(s.drop_first());
    }
}

proof fn lemma_ascii_walk(s: Seq<char>, i: int, rem: int)
    requires
        ascii(s),
        0 <= i,
        0 <= rem,
        i + rem <= s.len(),
    ensures
        crate::utf8len::boundary_from(s, i, rem),
        crate::utf8len::cidx_from(s, i, rem) == i + rem,
    decreases rem,
{
    if rem > 0 {
        crate::utf8len::lemma_clen_bounds(s[i]);
        lemma_ascii_walk(s, i + 1, rem - 1);
    }
}

/// Every byte position of an ASCII text is a boundary, after as many
/// characters as bytes.
pub proof fn lemma_ascii_boundary(s: Seq<char>, m: int)
    requires
        ascii(s),
        0 <= m <= s.len(),
    ensures
        is_boundary(s, m),
        cidx(s, m) == m,
{
    lemma_ascii_walk(s, 0, m);
}

proof fn lemma_split_search_bounds(b: Seq<u8>, mid: int, i: int, lim: int)
    requires
        0 <= i,
        lim <= mid,
    ensures
        split_search(b, mid, i, lim) == mid || (mid - lim + 2 <= split_search(b, mid, i, lim)
            <= mid + lim),
    decreases lim - i,
{
    if i < lim {
        lemma_split_search_bounds(b, mid, i + 1, lim);
    }
}

/// The split point of a long text lies strictly inside it.
proof fn lemma_split_point_inside(b: Seq<u8>)
    requires
        b.len() > chunk_limit(),
    ensures
        0 < split_point(b) < b.len(),
{
    lemma_split_search_bounds(b, (b.len() / 2) as int, 0, (b.len() / 4) as int);
}

/// An ASCII text can always be cut into leaves: every split falls between
/// characters, so building a rope from it never fails.
pub proof fn law_ascii_chunks_ok(s: Seq<char>)
    requires
        ascii(s),
    ensures
        chunks_ok(s),
    decreases s.len(),
{
    lemma_ascii_blen(s);
    if blen(s) > chunk_limit() {
        let b = encode_utf8(s);
        assert(b.len() == blen(s));
        lemma_split_point_inside(b);
        let m = split_point(b);
        lemma_ascii_boundary(s, m);
        let k = cidx(s, m);
        assert(ascii(s.take(k))) by {
            assert forall|q: int| 0 <= q < s.take(k).len() implies (#[trigger] s.take(k)[q]
                as u32) < 0x80 by {
                assert(s.take(k)[q] == s[q]);
            }
        }
        assert(ascii(s.skip(k))) by {
            assert forall|q: int| 0 <= q < s.skip(k).len() implies (#[trigger] s.skip(k)[q]
                as u32) < 0x80 by {
                assert(s.skip(k)[q] == s[q + k]);
            }
        }
        law_ascii_chunks_ok(s.take(k));
        law_ascii_chunks_ok(s.skip(k));
    }
}

/// Every leaf is ASCII.
pub open spec fn all_ascii(ls: Seq<Seq<char>>) -> bool {
    forall|k: int| 0 <= k < ls.len() ==> ascii(#[trigger] ls[k])
}

proof fn lemma_ascii_parts(s: Seq<char>, k: int)
    requires
        ascii(s),
        0 <= k <= s.len(),
    ensures
        ascii(s.take(k)),
        ascii(s.skip(k)),
{
    assert forall|q: int| 0 <= q < s.take(k).len() implies (#[trigger] s.take(k)[q] as u32) < 0x80 by {
        assert(s.take(k)[q] == s[q]);
    }
    assert forall|q: int| 0 <= q < s.skip(k).len() implies (#[trigger] s.skip(k)[q] as u32) < 0x80 by {
        assert(s.skip(k)[q] == s[q + k]);
    }
}

proof fn lemma_ascii_join(a: Seq<char>, b: Seq<char>)
    requires
        ascii(a),
        ascii(b),
    ensures
        ascii(a + b),
{
    assert forall|q: int| 0 <= q < (a + b).len() implies (#[trigger] (a + b)[q] as u32) < 0x80 by {
        if q < a.len() {
            assert((a + b)[q] == a[q]);
        } else {
            assert((a + b)[q] == b[q - a.len()]);
        }
    }
}

proof fn lemma_chunks_ascii(s: Seq<char>)
    requires
        ascii(s),
    ensures
        all_ascii(chunks(s)),
    decreases s.len(),
{
    if blen(s) > chunk_limit() {
        let k = cidx(s, split_point(encode_utf8(s)));
        if 0 < k < s.len() {
            lemma_ascii_parts(s, k);
            lemma_chunks_ascii(s.take(k));
            lemma_chunks_ascii(s.skip(k));
            let c1 = chunks(s.take(k));
            let c2 = chunks(s.skip(k));
            assert forall|j: int| 0 <= j < (c1 + c2).len() implies ascii(#[trigger] (c1 + c2)[j]) by {
                if j < c1.len() {
                    assert((c1 + c2)[j] == c1[j]);
                } else {
                    assert((c1 + c2)[j] == c2[j - c1.len()]);
                }
            }
        }
    }
}

proof fn lemma_splice_ascii(s: Seq<char>, pos: int, t: Seq<char>)
    requires
        ascii(s),
        ascii(t),
    ensures
        ascii(splice(s, pos, t)),
{
    if pos > blen(s) {
        lemma_ascii_join(s, t);
    } else {
        lemma_cidx_from(s, 0, pos);
        let k = cidx(s, pos);
        lemma_ascii_parts(s, k);
        lemma_ascii_join(s.take(k), t);
        lemma_ascii_join(s.take(k) + t, s.skip(k));
    }
}

proof fn lemma_insert_leaves_ascii(ls: Seq<Seq<char>>, pos: int, t: Seq<char>)
    requires
        all_ascii(ls),
        ascii(t),
    ensures
        all_ascii(insert_leaves(ls, pos, t)),
    decreases ls.len(),
{
    if !(t.len() == 0 || ls.len() == 0) {
        let rest = ls.drop_first();
        assert(all_ascii(rest)) by {
            assert forall|k: int| 0 <= k < rest.len() implies ascii(#[trigger] rest[k]) by {
                assert(rest[k] == ls[k + 1]);
            }
        }
        let r = insert_leaves(ls, pos, t);
        if ls.len() == 1 || pos <= blen(ls[0]) {
            assert(ascii(ls[0]));
            lemma_splice_ascii(ls[0], pos, t);
            let c = chunks(splice(ls[0], pos, t));
            lemma_chunks_ascii(splice(ls[0], pos, t));
            assert forall|j: int| 0 <= j < r.len() implies ascii(#[trigger] r[j]) by {
                if j < c.len() {
                    assert(r[j] == c[j]);
                } else {
                    assert(r[j] == rest[j - c.len()]);
                }
            }
        } else {
            lemma_insert_leaves_ascii(rest, pos - blen(ls[0]), t);
            let r2 = insert_leaves(rest, pos - blen(ls[0]), t);
            assert forall|j: int| 0 <= j < r.len() implies ascii(#[trigger] r[j]) by {
                if j == 0 {
                    assert(r[0] == ls[0]);
                } else {
                    assert(r[j] == r2[j - 1]);
                }
            }
        }
    }
}

proof fn lemma_cut_leaves_ascii(ls: Seq<Seq<char>>, a: int, b: int)
    requires
        all_ascii(ls),
    ensures
        all_ascii(cut_leaves(ls, a, b)),
    decreases ls.len(),
{
    if ls.len() > 0 {
        let rest = ls.drop_first();
        assert(all_ascii(rest)) by {
            assert forall|k: int| 0 <= k < rest.len() implies ascii(#[trigger] rest[k]) by {
                assert(rest[k] == ls[k + 1]);
            }
        }
        lemma_cut_leaves_ascii(rest, a - blen(ls[0]), b - blen(ls[0]));
        let s0 = ls[0];
        assert(ascii(s0));
        let lo = clamp(a, blen(s0) as int);
        let hi = clamp(b, blen(s0) as int);
        lemma_cidx_from(s0, 0, lo);
        lemma_cidx_from(s0, 0, hi);
        lemma_ascii_parts(s0, cidx(s0, lo));
        lemma_ascii_parts(s0, cidx(s0, hi));
        lemma_ascii_join(s0.take(cidx(s0, lo)), s0.skip(cidx(s0, hi)));
        let c = cut(s0, a, b);
        let r2 = cut_leaves(rest, a - blen(s0), b - blen(s0));
        let r = cut_leaves(ls, a, b);
        if c.len() > 0 {
            assert forall|j: int| 0 <= j < r.len() implies ascii(#[trigger] r[j]) by {
                if j == 0 {
                    assert(r[0] == c);
                } else {
                    assert(r[j] == r2[j - 1]);
                }
            }
        }
    }
}

/// Removing bytes from ASCII leaves and putting ASCII text in keeps every
/// leaf ASCII.
pub proof fn law_ascii_leaves_edit(ls: Seq<Seq<char>>, a: int, b: int, pos: int, t: Seq<char>)
    requires
        all_ascii(ls),
        ascii(t),
    ensures
        all_ascii(delete_leaves(ls, a, b)),
        all_ascii(insert_leaves(delete_leaves(ls, a, b), pos, t)),
{
    lemma_cut_leaves_ascii(ls, a, b);
    let d = delete_leaves(ls, a, b);
    if a < b && cut_leaves(ls, a, b).len() == 0 {
        assert(ascii(d[0]));
    }
    lemma_insert_leaves_ascii(d, pos, t);
}

/// Inserting ASCII text into a rope whose leaves are ASCII never needs a
/// split inside a character.
pub proof fn law_ascii_chunks_fit(ls: Seq<Seq<char>>, pos: int, t: Seq<char>)
    requires
        forall|k: int| 0 <= k < ls.len() ==> ascii(#[trigger] ls[k]),
        ascii(t),
    ensures
        chunks_fit(ls, pos, t),
    decreases ls.len(),
{
    if t.len() > 0 && ls.len() > 0 {
        if ls.len() == 1 || pos <= blen(ls[0]) {
            let u = splice(ls[0], pos, t);
            assert(ascii(ls[0]));
            assert(ascii(u)) by {
                if pos > blen(ls[0]) {
                    assert forall|q: int| 0 <= q < u.len() implies (#[trigger] u[q] as u32)
                        < 0x80 by {
                        if q < ls[0].len() {
                            assert(u[q] == ls[0][q]);
                        } else {
                            assert(u[q] == t[q - ls[0].len()]);
                        }
                    }
                } else {
                    let k = cidx(ls[0], pos);
                    lemma_cidx_from(ls[0], 0, pos);
                    assert forall|q: int| 0 <= q < u.len() implies (#[trigger] u[q] as u32)
                        < 0x80 by {
                        if q < k {
                            assert(u[q] == ls[0][q]);
                        } else if q < k + t.len() {
                            assert(u[q] == t[q - k]);
                        } else {
                            assert(u[q] == ls[0][q - t.len()]);
                        }
                    }
                }
            }
            law_ascii_chunks_ok(u);
        } else {
            assert forall|k: int| 0 <= k < ls.drop_first().len() implies ascii(
                #[trigger] ls.drop_first()[k],
            ) by {
                assert(ls.drop_first()[k] == ls[k + 1]);
            }
            law_ascii_chunks_fit(ls.drop_first(), pos - blen(ls[0]), t);
        }
    }
}

/// Each change `(pos, inserted, removed)` on the undo stack can be undone in
/// turn, from the top: the text holds `inserted` at `pos`, and the text with
/// it replaced by `removed` fits in memory and admits the changes below.
pub open spec fn undo_chain(t: Seq<char>, es: Seq<(int, Seq<char>, Seq<char>)>) -> bool
    decreases es.len(),
{
    es.len() == 0 || {
        let e = es.last();
        &&& holds_at(t, e.0, e.1)
        &&& blen(replace_at(t, e.0, e.1, e.2)) <= usize::MAX
        &&& undo_chain(replace_at(t, e.0, e.1, e.2), es.drop_last())
    }
}

/// Each change on the redo stack can be redone in turn, from the top: the
/// text holds `removed` at `pos`, to be replaced by `inserted`.
pub open spec fn redo_chain(t: Seq<char>, es: Seq<(int, Seq<char>, Seq<char>)>) -> bool
    decreases es.len(),
{
    es.len() == 0 || {
        let e = es.last();
        &&& holds_at(t, e.0, e.2)
        &&& blen(replace_at(t, e.0, e.2, e.1)) <= usize::MAX
        &&& redo_chain(replace_at(t, e.0, e.2, e.1), es.drop_last())
    }
}

} // verus!
