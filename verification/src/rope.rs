//! A B-tree rope: leaves hold up to `CHUNK_SIZE` bytes of text, internal
//! nodes hold two children and the byte and line counts of their subtree.
//! Offsets are UTF-8 byte offsets.
use vstd::prelude::*;
use vstd::string::StringExecFns;
use vstd::utf8::encode_utf8;
use crate::rope_spec::{
    char_in_leaves, chunk_limit, chunks, chunks_fit, chunks_ok, clamp, cut, cut_fits, cut_leaves,
    delete_leaves, insert_fits, insert_leaves, leaf_line_count, leaves_ok, lemma_char_split,
    lemma_chunks, lemma_cut_content, lemma_cut_hi, lemma_cut_len, lemma_cut_lo, lemma_cut_split,
    lemma_cut_untouched, lemma_end_boundary, lemma_insert_content, lemma_insert_split,
    lemma_leaf_line_count, lemma_leaves_ok_concat, lemma_single_nonempty,
    lemma_splice_len, lemma_sum_lines_bound, lemma_sum_lines_concat, lemma_total_concat,
    lemma_total_cons, lemma_total_single, lemma_cut_leaves_nonempty, text_line, splice, split_point, split_search, sum_line_counts,
    sum_raw_lines, total, holds_at, replace_at, undo_chain, redo_chain, law_replace_inverse,
    all_ascii, ascii, law_ascii_chunks_fit, law_ascii_leaves_edit,
};
use crate::text::{chars_of, push_all, split_lines_chars, string_from_chars, views};
use crate::utf8len::{blen, char_index_of_byte, cidx, is_boundary, lemma_blen_empty};

verus! {

const CHUNK_SIZE: usize = 512;

#[derive(Debug)]
pub enum Node {
    Leaf { text: String, line_count: usize },
    Internal { left: Box<Node>, right: Box<Node>, char_count: usize, line_count: usize },
}

impl Node {
    /// The texts of the leaves, left to right.
    pub closed spec fn leaves(self) -> Seq<Seq<char>>
        decreases self,
    {
        match self {
            Node::Leaf { text, .. } => seq![text@],
            Node::Internal { left, right, .. } => left.leaves() + right.leaves(),
        }
    }

    /// Cached counts are right, leaves fit the chunk size and the children
    /// of an internal node are non-empty.
    pub closed spec fn wf(self) -> bool
        decreases self,
    {
        match self {
            Node::Leaf { text, line_count } => {
                &&& line_count == leaf_line_count(text@)
                &&& blen(text@) <= chunk_limit()
            },
            Node::Internal { left, right, char_count, line_count } => {
                &&& left.wf()
                &&& right.wf()
                &&& total(left.leaves()) > 0
                &&& total(right.leaves()) > 0
                &&& char_count == total(left.leaves() + right.leaves())
                &&& line_count == sum_line_counts(left.leaves() + right.leaves())
            },
        }
    }

    pub proof fn lemma_wf(self)
        requires
            self.wf(),
        ensures
            leaves_ok(self.leaves()),
            total(self.leaves()) <= usize::MAX,
            sum_line_counts(self.leaves()) <= usize::MAX,
            sum_raw_lines(self.leaves()) <= sum_line_counts(self.leaves()),
            sum_line_counts(self.leaves()) <= if total(self.leaves()) == 0 {
                1
            } else {
                total(self.leaves())
            },
        decreases self,
    {
        match self {
            Node::Leaf { text, .. } => {
                let ls = self.leaves();
                lemma_total_cons(ls);
                assert(ls.drop_first() =~= Seq::<Seq<char>>::empty());
                assert(ls.drop_first().flatten() =~= Seq::<char>::empty());
                lemma_blen_empty(ls.drop_first().flatten());
                lemma_leaf_line_count(text@);
                lemma_blen_empty(text@);
                assert(ls.flatten() =~= text@);
                assert(sum_line_counts(ls.drop_first()) == 0);
                assert(sum_raw_lines(ls.drop_first()) == 0);
            },
            Node::Internal { left, right, char_count, line_count } => {
                left.lemma_wf();
                right.lemma_wf();
                lemma_leaves_ok_concat(left.leaves(), right.leaves());
                lemma_total_concat(left.leaves(), right.leaves());
                lemma_sum_lines_concat(left.leaves(), right.leaves());
                lemma_single_nonempty(left.leaves());
                lemma_single_nonempty(right.leaves());
                lemma_sum_lines_bound(left.leaves());
                lemma_sum_lines_bound(right.leaves());
            },
        }
    }

    /// The counts cached in a well-formed node are those of its text: a
    /// leaf's line count is that of its text, and an internal node's byte
    /// and line counts are the sums of its two children's, each of which is
    /// well-formed and non-empty.
    pub proof fn law_cached_counts(self)
        requires
            self.wf(),
        ensures
            match self {
                Node::Leaf { text, line_count } => line_count == leaf_line_count(text@) && blen(
                    text@,
                ) <= chunk_limit(),
                Node::Internal { left, right, char_count, line_count } => {
                    &&& left.wf()
                    &&& right.wf()
                    &&& char_count == total(left.leaves()) + total(right.leaves())
                    &&& char_count == blen(left.leaves().flatten() + right.leaves().flatten())
                    &&& line_count == sum_line_counts(left.leaves()) + sum_line_counts(right.leaves())
                    &&& total(left.leaves()) > 0
                    &&& total(right.leaves()) > 0
                },
            },
    {
        match self {
            Node::Leaf { .. } => {},
            Node::Internal { left, right, .. } => {
                lemma_total_concat(left.leaves(), right.leaves());
                lemma_sum_lines_concat(left.leaves(), right.leaves());
            },
        }
    }

    /// A copy of the node.
    fn duplicate(&self) -> (r: Node)
        ensures
            r == *self,
        decreases self,
    {
        match self {
            Node::Leaf { text, line_count } => Node::Leaf { text: text.clone(), line_count: *line_count },
            Node::Internal { left, right, char_count, line_count } => Node::Internal {
                left: Box::new(left.duplicate()),
                right: Box::new(right.duplicate()),
                char_count: *char_count,
                line_count: *line_count,
            },
        }
    }

    /// Bytes of text in this subtree.
    pub fn char_count(&self) -> (n: usize)
        requires
            self.wf(),
        ensures
            n == total(self.leaves()),
    {
        proof {
            self.lemma_wf();
        }
        match self {
            Node::Leaf { text, .. } => {
                proof {
                    assert(self.leaves().flatten() == text@) by {
                        lemma_total_cons(self.leaves());
                        assert(self.leaves().drop_first() =~= Seq::<Seq<char>>::empty());
                        assert(self.leaves().drop_first().flatten() =~= Seq::<char>::empty());
                        assert(text@ + Seq::<char>::empty() =~= text@);
                    }
                }
                text.as_str().len()
            },
            Node::Internal { char_count, .. } => *char_count,
        }
    }

    /// Lines in this subtree: each leaf counts `lines().count()`, at least one.
    pub fn line_count(&self) -> (n: usize)
        requires
            self.wf(),
        ensures
            n == sum_line_counts(self.leaves()),
    {
        match self {
            Node::Leaf { line_count, .. } => {
                proof {
                    assert(self.leaves().drop_first() =~= Seq::<Seq<char>>::empty());
                    assert(sum_line_counts(self.leaves().drop_first()) == 0);
                }
                *line_count
            },
            Node::Internal { line_count, .. } => *line_count,
        }
    }

    /// A leaf holding `text`, which fits the chunk size.
    fn leaf(text: String) -> (r: Node)
        requires
            blen(text@) <= chunk_limit(),
        ensures
            r.wf(),
            r.leaves() == seq![text@],
    {
        let chars = chars_of(text.as_str());
        proof {
            lemma_leaf_line_count(text@);
        }
        let count = split_lines_chars(chars.as_slice()).len();
        let line_count = if count == 0 { 1 } else { count };
        Node::Leaf { text, line_count }
    }

    /// Builds a subtree for `s`, splitting it in two around
    /// `find_split_point` while it exceeds the chunk size.
    pub fn from_str(s: &str) -> (r: Node)
        requires
            chunks_ok(s@),
        ensures
            r.wf(),
            r.leaves() == chunks(s@),
        decreases s@.len(),
    {
        let n = s.as_bytes().len();
        if n <= CHUNK_SIZE {
            Node::leaf(s.to_owned())
        } else {
            let mid = find_split_point(s);
            let chars = chars_of(s);
            let k = char_index_of_byte(chars.as_slice(), mid);
            let left_text = string_from_chars(vstd::slice::slice_subrange(chars.as_slice(), 0, k));
            let right_text = string_from_chars(
                vstd::slice::slice_subrange(chars.as_slice(), k, chars.len()),
            );
            proof {
                assert(left_text@ =~= s@.take(k as int));
                assert(right_text@ =~= s@.skip(k as int));
                lemma_chunks(s@.take(k as int));
                lemma_chunks(s@.skip(k as int));
                lemma_blen_empty(s@.take(k as int));
                lemma_blen_empty(s@.skip(k as int));
                assert(s@.take(k as int) + s@.skip(k as int) =~= s@);
                crate::utf8len::lemma_blen_concat(s@.take(k as int), s@.skip(k as int));
            }
            let left = Node::from_str(left_text.as_str());
            let right = Node::from_str(right_text.as_str());
            Node::merge(left, right)
        }
    }

    /// An internal node over two non-empty subtrees.
    fn merge(left: Node, right: Node) -> (r: Node)
        requires
            left.wf(),
            right.wf(),
            total(left.leaves()) > 0,
            total(right.leaves()) > 0,
            total(left.leaves()) + total(right.leaves()) <= usize::MAX,
        ensures
            r.wf(),
            r.leaves() == left.leaves() + right.leaves(),
    {
        proof {
            left.lemma_wf();
            right.lemma_wf();
            lemma_total_concat(left.leaves(), right.leaves());
            lemma_sum_lines_concat(left.leaves(), right.leaves());
        }
        let char_count = left.char_count() + right.char_count();
        let line_count = left.line_count() + right.line_count();
        Node::Internal { left: Box::new(left), right: Box::new(right), char_count, line_count }
    }
}

impl Node {
    /// This subtree with `text` inserted at byte `pos` (appended when `pos`
    /// is past the end).
    pub fn insert(&self, pos: usize, text: &str) -> (r: Node)
        requires
            self.wf(),
            insert_fits(self.leaves(), pos as int, text@),
            total(self.leaves()) + blen(text@) <= usize::MAX,
        ensures
            r.wf(),
            r.leaves() == insert_leaves(self.leaves(), pos as int, text@),
        decreases self,
    {
        if text.is_empty() {
            return self.duplicate();
        }
        proof {
            self.lemma_wf();
            lemma_blen_empty(text@);
        }
        match self {
            Node::Leaf { text: leaf_text, .. } => {
                let chars = chars_of(leaf_text.as_str());
                let ins = chars_of(text);
                let n = leaf_text.as_str().as_bytes().len();
                let mut new_chars: Vec<char>;
                if pos > n {
                    new_chars = chars.clone();
                    push_all(&mut new_chars, ins.as_slice());
                } else {
                    let k = char_index_of_byte(chars.as_slice(), pos);
                    new_chars = vstd::slice::slice_to_vec(
                        vstd::slice::slice_subrange(chars.as_slice(), 0, k),
                    );
                    push_all(&mut new_chars, ins.as_slice());
                    push_all(
                        &mut new_chars,
                        vstd::slice::slice_subrange(chars.as_slice(), k, chars.len()),
                    );
                }
                let new_text = string_from_chars(new_chars.as_slice());
                proof {
                    assert(new_text@ =~= splice(leaf_text@, pos as int, text@));
                    let ls = self.leaves();
                    assert(ls.drop_first() =~= Seq::<Seq<char>>::empty());
                    assert(insert_leaves(ls, pos as int, text@) =~= chunks(new_text@));
                }
                if new_text.as_str().as_bytes().len() <= CHUNK_SIZE {
                    Node::leaf(new_text)
                } else {
                    Node::from_str(new_text.as_str())
                }
            },
            Node::Internal { left, right, .. } => {
                let left_len = left.char_count();
                proof {
                    left.lemma_wf();
                    right.lemma_wf();
                    lemma_total_concat(left.leaves(), right.leaves());
                    lemma_insert_split(left.leaves(), right.leaves(), pos as int, text@);
                }
                if pos <= left_len {
                    let new_left = left.insert(pos, text);
                    proof {
                        lemma_insert_content(left.leaves(), pos as int, text@);
                    }
                    Node::merge(new_left, right.duplicate())
                } else {
                    let new_right = right.insert(pos - left_len, text);
                    proof {
                        lemma_insert_content(right.leaves(), pos - left_len, text@);
                    }
                    Node::merge(left.duplicate(), new_right)
                }
            },
        }
    }

    /// This subtree with the bytes `start..end` (clamped to it) removed.
    pub fn delete(&self, start: usize, end: usize) -> (r: Node)
        requires
            self.wf(),
            start < end ==> cut_fits(self.leaves(), start as int, end as int),
        ensures
            r.wf(),
            r.leaves() == delete_leaves(self.leaves(), start as int, end as int),
        decreases self,
    {
        if start >= end {
            return self.duplicate();
        }
        proof {
            self.lemma_wf();
        }
        match self {
            Node::Leaf { text: leaf_text, .. } => {
                let chars = chars_of(leaf_text.as_str());
                let n = leaf_text.as_str().as_bytes().len();
                let s = if start < n { start } else { n };
                let e = if end < n { end } else { n };
                let ks = char_index_of_byte(chars.as_slice(), s);
                let ke = char_index_of_byte(chars.as_slice(), e);
                let mut new_chars = vstd::slice::slice_to_vec(
                    vstd::slice::slice_subrange(chars.as_slice(), 0, ks),
                );
                push_all(&mut new_chars, vstd::slice::slice_subrange(chars.as_slice(), ke, chars.len()));
                let new_text = string_from_chars(new_chars.as_slice());
                proof {
                    let ls = self.leaves();
                    assert(new_text@ =~= cut(leaf_text@, start as int, end as int));
                    lemma_cut_len(leaf_text@, start as int, end as int);
                    assert(ls.drop_first() =~= Seq::<Seq<char>>::empty());
                    let rest = cut_leaves(ls.drop_first(), start - blen(ls[0]), end - blen(ls[0]));
                    assert(rest =~= Seq::<Seq<char>>::empty());
                    if new_text@.len() == 0 {
                        assert(new_text@ =~= Seq::<char>::empty());
                        assert(cut_leaves(ls, start as int, end as int) =~= Seq::<Seq<char>>::empty());
                    } else {
                        assert(cut_leaves(ls, start as int, end as int) =~= seq![new_text@]);
                    }
                    assert(delete_leaves(ls, start as int, end as int) =~= seq![new_text@]);
                }
                Node::leaf(new_text)
            },
            Node::Internal { left, right, .. } => {
                let left_len = left.char_count();
                let ghost ll = left.leaves();
                let ghost rl = right.leaves();
                proof {
                    left.lemma_wf();
                    right.lemma_wf();
                    lemma_single_nonempty(ll);
                    lemma_single_nonempty(rl);
                    lemma_total_concat(ll, rl);
                    lemma_cut_split(ll, rl, start as int, end as int);
                    lemma_cut_leaves_nonempty(ll + rl, start as int, end as int);
                    lemma_cut_content(ll + rl, start as int, end as int);
                    lemma_cut_len(
                        (ll + rl).flatten(),
                        start as int,
                        end as int,
                    );
                }
                if end <= left_len {
                    let new_left = left.delete(start, end);
                    proof {
                        lemma_cut_untouched(rl, start - left_len, end - left_len);
                        lemma_cut_leaves_nonempty(ll, start as int, end as int);
                        lemma_cut_content(ll, start as int, end as int);
                        lemma_cut_len(ll.flatten(), start as int, end as int);
                        lemma_total_single(Seq::<char>::empty());
                        crate::utf8len::lemma_blen_empty(Seq::<char>::empty());
                        lemma_total_concat(cut_leaves(ll, start as int, end as int), rl);
                    }
                    Node::rebalance(new_left, right.duplicate())
                } else if start >= left_len {
                    let new_right = right.delete(start - left_len, end - left_len);
                    proof {
                        lemma_cut_untouched(ll, start as int, end as int);
                        lemma_cut_leaves_nonempty(rl, start - left_len, end - left_len);
                        lemma_cut_content(rl, start - left_len, end - left_len);
                        lemma_cut_len(rl.flatten(), start - left_len, end - left_len);
                        lemma_total_single(Seq::<char>::empty());
                        crate::utf8len::lemma_blen_empty(Seq::<char>::empty());
                        assert(ll + cut_leaves(rl, start - left_len, end - left_len) == cut_leaves(
                            ll + rl,
                            start as int,
                            end as int,
                        ));
                    }
                    Node::rebalance(left.duplicate(), new_right)
                } else {
                    proof {
                        lemma_cut_hi(ll, start as int, end as int, left_len as int);
                        lemma_cut_lo(rl, start - left_len, 0, end - left_len);
                    }
                    let new_left = left.delete(start, left_len);
                    let new_right = right.delete(0, end - left_len);
                    proof {
                        lemma_cut_leaves_nonempty(ll, start as int, end as int);
                        lemma_cut_leaves_nonempty(rl, start - left_len, end - left_len);
                        lemma_cut_content(ll, start as int, end as int);
                        lemma_cut_content(rl, start - left_len, end - left_len);
                        lemma_cut_len(ll.flatten(), start as int, end as int);
                        lemma_cut_len(rl.flatten(), start - left_len, end - left_len);
                        lemma_total_single(Seq::<char>::empty());
                        crate::utf8len::lemma_blen_empty(Seq::<char>::empty());
                        let fl = cut_leaves(ll, start as int, end as int);
                        let fr = cut_leaves(rl, start - left_len, end - left_len);
                        assert(fl + fr == cut_leaves(ll + rl, start as int, end as int));
                        if fl.len() == 0 {
                            assert(fl + fr =~= fr);
                        }
                        if fr.len() == 0 {
                            assert(fl + fr =~= fl);
                        }
                    }
                    Node::rebalance(new_left, new_right)
                }
            },
        }
    }

    /// Joins two subtrees, dropping one that holds no text.
    fn rebalance(left: Node, right: Node) -> (r: Node)
        requires
            left.wf(),
            right.wf(),
            total(left.leaves()) + total(right.leaves()) <= usize::MAX,
        ensures
            r.wf(),
            r.leaves() == if total(left.leaves()) == 0 {
                right.leaves()
            } else if total(right.leaves()) == 0 {
                left.leaves()
            } else {
                left.leaves() + right.leaves()
            },
    {
        if left.char_count() == 0 {
            return right;
        }
        if right.char_count() == 0 {
            return left;
        }
        Node::merge(left, right)
    }

    /// Line `idx` (0-indexed) of the text, without its line ending; empty
    /// past the last line. A line may run across several leaves.
    pub fn line(&self, idx: usize) -> (r: String)
        requires
            self.wf(),
        ensures
            r@ == text_line(self.leaves().flatten(), idx as int),
    {
        let text = self.text();
        let chars = chars_of(text.as_str());
        let all = split_lines_chars(chars.as_slice());
        if idx < all.len() {
            proof {
                assert(views(all@)[idx as int] == all@[idx as int]@);
            }
            string_from_chars(all[idx].as_slice())
        } else {
            String::new()
        }
    }

    /// The whole text of this subtree.
    pub fn text(&self) -> (r: String)
        requires
            self.wf(),
        ensures
            r@ == self.leaves().flatten(),
        decreases self,
    {
        match self {
            Node::Leaf { text, .. } => {
                proof {
                    lemma_total_single(text@);
                }
                text.clone()
            },
            Node::Internal { left, right, .. } => {
                proof {
                    lemma_total_concat(left.leaves(), right.leaves());
                }
                let mut s = left.text();
                let r = right.text();
                s.append(r.as_str());
                s
            },
        }
    }

    /// The character at `pos` (see [`char_in_leaves`]).
    pub fn char_at(&self, pos: usize) -> (r: Option<char>)
        requires
            self.wf(),
        ensures
            r == char_in_leaves(self.leaves(), pos as int),
        decreases self,
    {
        match self {
            Node::Leaf { text, .. } => {
                let chars = chars_of(text.as_str());
                if pos < chars.len() {
                    Some(chars[pos])
                } else {
                    None
                }
            },
            Node::Internal { left, right, .. } => {
                proof {
                    left.lemma_wf();
                    right.lemma_wf();
                    lemma_char_split(left.leaves(), right.leaves(), pos as int);
                }
                let left_len = left.char_count();
                if pos < left_len {
                    left.char_at(pos)
                } else {
                    right.char_at(pos - left_len)
                }
            },
        }
    }
}

impl Clone for Node {
    fn clone(&self) -> (r: Self)
        ensures
            r == *self,
    {
        self.duplicate()
    }
}

/// Split point for a long text: the position after the nearest newline
/// around the middle, or the middle (see [`split_point`]).
fn find_split_point(s: &str) -> (m: usize)
    ensures
        m == split_point(encode_utf8(s@)),
{
    let bytes = s.as_bytes();
    let n = bytes.len();
    let mid = n / 2;
    let lim = n / 4;
    let mut i: usize = 0;
    while i < lim
        invariant
            bytes@ == encode_utf8(s@),
            n == bytes@.len(),
            mid == n / 2,
            lim == n / 4,
            i <= lim,
            split_search(bytes@, mid as int, i as int, lim as int) == split_point(encode_utf8(s@)),
        decreases lim - i,
    {
        if mid + i < n && bytes[mid + i] == 10u8 {
            return mid + i + 1;
        }
        if mid >= i && bytes[mid - i] == 10u8 {
            return mid - i + 1;
        }
        i = i + 1;
    }
    mid
}

} // verus!

verus! {

/// A rope-based text buffer.
pub struct Rope {
    root: Node,
}

impl Rope {
    #[verifier::type_invariant]
    spec fn well_formed(self) -> bool {
        self.root.wf()
    }

    /// The texts of the rope's leaves, left to right.
    pub closed spec fn leaves(self) -> Seq<Seq<char>> {
        self.root.leaves()
    }

    /// The rope's text.
    pub open spec fn chars(self) -> Seq<char> {
        self.leaves().flatten()
    }

    pub fn new() -> (r: Self)
        ensures
            r.leaves() == seq![Seq::<char>::empty()],
            r.chars() == Seq::<char>::empty(),
    {
        let r = Rope { root: Node::leaf(String::new()) };
        proof {
            lemma_total_single(Seq::<char>::empty());
        }
        r
    }

    /// A rope holding `text`, cut into leaves (see [`chunks`]).
    pub fn from(text: &str) -> (r: Self)
        requires
            chunks_ok(text@),
        ensures
            r.leaves() == chunks(text@),
            r.chars() == text@,
    {
        proof {
            lemma_chunks(text@);
        }
        if text.is_empty() {
            let r = Self::new();
            proof {
                assert(text@ =~= Seq::<char>::empty());
                assert(chunks(text@) =~= seq![Seq::<char>::empty()]);
            }
            r
        } else {
            Rope { root: Node::from_str(text) }
        }
    }

    /// Length of the text in bytes.
    pub fn char_count(&self) -> (n: usize)
        ensures
            n == blen(self.chars()),
    {
        proof {
            use_type_invariant(self);
        }
        self.root.char_count()
    }

    /// Sum over the leaves of their line counts (each at least one).
    pub fn line_count(&self) -> (n: usize)
        ensures
            n == sum_line_counts(self.leaves()),
            n >= 1,
    {
        proof {
            use_type_invariant(self);
            self.root.lemma_wf();
            lemma_total_cons(self.leaves());
            lemma_leaf_line_count(self.leaves()[0]);
        }
        self.root.line_count()
    }

    /// Inserts `text` at byte `pos`; past the end it is appended.
    pub fn insert(&mut self, pos: usize, text: &str)
        requires
            text@.len() > 0 ==> {
                &&& pos > blen(old(self).chars()) || is_boundary(old(self).chars(), pos as int)
                &&& chunks_fit(old(self).leaves(), pos as int, text@)
                &&& blen(old(self).chars()) + blen(text@) <= usize::MAX
            },
        ensures
            final(self).leaves() == insert_leaves(old(self).leaves(), pos as int, text@),
            final(self).chars() == splice(old(self).chars(), pos as int, text@),
    {
        proof {
            use_type_invariant(&*self);
            self.root.lemma_wf();
            if text@.len() > 0 {
                lemma_insert_content(self.leaves(), pos as int, text@);
            } else {
                let s = self.chars();
                if pos <= blen(s) {
                    crate::utf8len::lemma_cidx_from(s, 0, pos as int);
                    assert(s.take(cidx(s, pos as int)) + text@ + s.skip(cidx(s, pos as int)) =~= s);
                } else {
                    assert(s + text@ =~= s);
                }
            }
        }
        self.root = self.root.insert(pos, text);
    }

    /// Removes the bytes `start..end` (clamped to the text); nothing when
    /// `start >= end`.
    pub fn delete(&mut self, start: usize, end: usize)
        requires
            start < end ==> {
                &&& is_boundary(old(self).chars(), clamp(start as int, blen(old(self).chars()) as int))
                &&& is_boundary(old(self).chars(), clamp(end as int, blen(old(self).chars()) as int))
            },
        ensures
            final(self).leaves() == delete_leaves(old(self).leaves(), start as int, end as int),
            final(self).chars() == if start < end {
                cut(old(self).chars(), start as int, end as int)
            } else {
                old(self).chars()
            },
    {
        proof {
            use_type_invariant(&*self);
            if start < end {
                lemma_cut_content(self.leaves(), start as int, end as int);
                let f = cut_leaves(self.leaves(), start as int, end as int);
                if f.len() == 0 {
                    lemma_total_single(Seq::<char>::empty());
                    assert(f.flatten() =~= Seq::<char>::empty());
                }
            }
        }
        self.root = self.root.delete(start, end);
    }

    /// Line `idx` of the text (see [`text_line`]).
    pub fn line(&self, idx: usize) -> (r: String)
        ensures
            r@ == text_line(self.chars(), idx as int),
    {
        proof {
            use_type_invariant(self);
        }
        self.root.line(idx)
    }

    pub fn text(&self) -> (r: String)
        ensures
            r@ == self.chars(),
    {
        proof {
            use_type_invariant(self);
        }
        self.root.text()
    }

    /// The character at `pos` (see [`char_in_leaves`]).
    pub fn char_at(&self, pos: usize) -> (r: Option<char>)
        ensures
            r == char_in_leaves(self.leaves(), pos as int),
    {
        proof {
            use_type_invariant(self);
        }
        self.root.char_at(pos)
    }
}

} // verus!

verus! {

/// One half of a recorded change: the undo and redo stacks hold an
/// `Insert` (what was put in) followed by a `Delete` (what was taken out).
#[derive(Debug)]
enum Edit {
    Insert { pos: usize, text: String },
    Delete { start: usize, end: usize, text: String },
}

spec fn edit_pos(e: Edit) -> int {
    match e {
        Edit::Insert { pos, .. } => pos as int,
        Edit::Delete { start, .. } => start as int,
    }
}

spec fn edit_text(e: Edit) -> Seq<char> {
    match e {
        Edit::Insert { text, .. } => text@,
        Edit::Delete { text, .. } => text@,
    }
}

/// The stack is a sequence of (`Insert`, `Delete`) pairs.
spec fn pairs_ok(st: Seq<Edit>) -> bool {
    &&& st.len() % 2 == 0
    &&& forall|i: int|
        0 <= i < st.len() / 2 ==> (#[trigger] st[2 * i]) is Insert && st[2 * i + 1] is Delete
}

/// The changes recorded on a stack, bottom first, as
/// `(byte position, inserted text, removed text)`.
spec fn changes(st: Seq<Edit>) -> Seq<(int, Seq<char>, Seq<char>)> {
    Seq::new(
        (st.len() / 2) as nat,
        |i: int| (edit_pos(st[2 * i]), edit_text(st[2 * i]), edit_text(st[2 * i + 1])),
    )
}

proof fn lemma_changes_push(st: Seq<Edit>, a: Edit, b: Edit)
    requires
        pairs_ok(st),
        a is Insert,
        b is Delete,
    ensures
        pairs_ok(st.push(a).push(b)),
        changes(st.push(a).push(b)) == changes(st).push((edit_pos(a), edit_text(a), edit_text(b))),
{
    let s2 = st.push(a).push(b);
    assert forall|i: int| 0 <= i < s2.len() / 2 implies (#[trigger] s2[2 * i]) is Insert && s2[2
        * i + 1] is Delete by {
        if i < st.len() / 2 {
            assert(s2[2 * i] == st[2 * i]);
            assert(s2[2 * i + 1] == st[2 * i + 1]);
        }
    }
    assert(changes(s2) =~= changes(st).push((edit_pos(a), edit_text(a), edit_text(b))));
}

proof fn lemma_changes_pop(st: Seq<Edit>)
    requires
        pairs_ok(st),
        st.len() >= 2,
    ensures
        pairs_ok(st.drop_last().drop_last()),
        st.drop_last().drop_last() + seq![st[st.len() - 2], st[st.len() - 1]] == st,
        st[st.len() - 2] is Insert,
        st[st.len() - 1] is Delete,
        changes(st.drop_last().drop_last()) == changes(st).drop_last(),
        changes(st).last() == (edit_pos(st[st.len() - 2]), edit_text(st[st.len() - 2]), edit_text(
            st[st.len() - 1],
        )),
{
    let s2 = st.drop_last().drop_last();
    let n = st.len() / 2;
    assert(st[2 * (n - 1)] is Insert);
    assert(2 * (n - 1) == st.len() - 2);
    assert forall|i: int| 0 <= i < s2.len() / 2 implies (#[trigger] s2[2 * i]) is Insert && s2[2
        * i + 1] is Delete by {
        assert(s2[2 * i] == st[2 * i]);
        assert(s2[2 * i + 1] == st[2 * i + 1]);
        assert(st[2 * i] is Insert);
    }
    assert(s2 + seq![st[st.len() - 2], st[st.len() - 1]] =~= st);
    assert(changes(s2) =~= changes(st).drop_last());
}

/// A rope-based text buffer with undo and redo.
pub struct Buffer {
    rope: Rope,
    undo_stack: Vec<Edit>,
    redo_stack: Vec<Edit>,
}

impl Buffer {
    /// Both stacks hold pairs, and every recorded change can be undone
    /// (respectively redone) in order from the current text.
    pub closed spec fn wf(&self) -> bool {
        &&& blen(self.rope.chars()) <= usize::MAX
        &&& pairs_ok(self.undo_stack@)
        &&& pairs_ok(self.redo_stack@)
        &&& undo_chain(self.rope.chars(), changes(self.undo_stack@))
        &&& redo_chain(self.rope.chars(), changes(self.redo_stack@))
    }

    /// The buffer's text.
    pub closed spec fn text_view(&self) -> Seq<char> {
        self.rope.chars()
    }

    /// The leaves of the buffer's rope.
    pub closed spec fn leaves(&self) -> Seq<Seq<char>> {
        self.rope.leaves()
    }

    /// Changes that `undo` reverts, last one on top, as
    /// `(byte position, inserted text, removed text)`.
    pub closed spec fn undo_view(&self) -> Seq<(int, Seq<char>, Seq<char>)> {
        changes(self.undo_stack@)
    }

    /// Changes that `redo` re-applies, next one on top.
    pub closed spec fn redo_view(&self) -> Seq<(int, Seq<char>, Seq<char>)> {
        changes(self.redo_stack@)
    }

    /// The rope's leaves let the next undo put the removed text back.
    pub open spec fn undo_fits(&self) -> bool {
        self.undo_view().len() > 0 ==> {
            let e = self.undo_view().last();
            chunks_fit(delete_leaves(self.leaves(), e.0, e.0 + blen(e.1)), e.0, e.2)
        }
    }

    /// The rope's leaves let the next redo put the inserted text back.
    pub open spec fn redo_fits(&self) -> bool {
        self.redo_view().len() > 0 ==> {
            let e = self.redo_view().last();
            chunks_fit(delete_leaves(self.leaves(), e.0, e.0 + blen(e.2)), e.0, e.1)
        }
    }

    /// In a buffer whose leaves and recorded changes hold only ASCII text,
    /// the next undo and the next redo can always be made, and the leaves
    /// that either leaves behind are ASCII again, so that the history can
    /// be walked back and forth any number of steps.
    pub proof fn law_ascii_history_fits(self)
        requires
            all_ascii(self.leaves()),
            forall|k: int|
                0 <= k < self.undo_view().len() ==> ascii((#[trigger] self.undo_view()[k]).1)
                    && ascii(self.undo_view()[k].2),
            forall|k: int|
                0 <= k < self.redo_view().len() ==> ascii((#[trigger] self.redo_view()[k]).1)
                    && ascii(self.redo_view()[k].2),
        ensures
            self.undo_fits(),
            self.redo_fits(),
            self.undo_view().len() > 0 ==> {
                let e = self.undo_view().last();
                all_ascii(insert_leaves(delete_leaves(self.leaves(), e.0, e.0 + blen(e.1)), e.0, e.2))
            },
            self.redo_view().len() > 0 ==> {
                let e = self.redo_view().last();
                all_ascii(insert_leaves(delete_leaves(self.leaves(), e.0, e.0 + blen(e.2)), e.0, e.1))
            },
    {
        if self.undo_view().len() > 0 {
            let e = self.undo_view().last();
            assert(ascii(self.undo_view()[self.undo_view().len() - 1].1));
            law_ascii_leaves_edit(self.leaves(), e.0, e.0 + blen(e.1), e.0, e.2);
            law_ascii_chunks_fit(delete_leaves(self.leaves(), e.0, e.0 + blen(e.1)), e.0, e.2);
        }
        if self.redo_view().len() > 0 {
            let e = self.redo_view().last();
            assert(ascii(self.redo_view()[self.redo_view().len() - 1].1));
            law_ascii_leaves_edit(self.leaves(), e.0, e.0 + blen(e.2), e.0, e.1);
            law_ascii_chunks_fit(delete_leaves(self.leaves(), e.0, e.0 + blen(e.2)), e.0, e.1);
        }
    }

    pub fn new() -> (r: Self)
        ensures
            r.wf(),
            r.text_view() == Seq::<char>::empty(),
            r.leaves() == seq![Seq::<char>::empty()],
            r.undo_view().len() == 0,
            r.redo_view().len() == 0,
    {
        let r = Buffer { rope: Rope::new(), undo_stack: Vec::new(), redo_stack: Vec::new() };
        proof {
            lemma_blen_empty(r.rope.chars());
            assert(changes(r.undo_stack@).len() == 0);
            assert(changes(r.redo_stack@).len() == 0);
        }
        r
    }

    pub fn from(text: &str) -> (r: Self)
        requires
            chunks_ok(text@),
        ensures
            r.wf(),
            r.text_view() == text@,
            r.leaves() == chunks(text@),
            r.undo_view().len() == 0,
            r.redo_view().len() == 0,
    {
        let n = text.as_bytes().len();
        let r = Buffer { rope: Rope::from(text), undo_stack: Vec::new(), redo_stack: Vec::new() };
        proof {
            assert(n == blen(text@));
            assert(changes(r.undo_stack@).len() == 0);
            assert(changes(r.redo_stack@).len() == 0);
        }
        r
    }

    /// Replaces the bytes `start..end` by `new_text`, records the change for
    /// undo and forgets what could be redone.
    pub fn edit(&mut self, start: usize, end: usize, new_text: &str)
        requires
            old(self).wf(),
            start <= end <= blen(old(self).text_view()),
            is_boundary(old(self).text_view(), start as int),
            is_boundary(old(self).text_view(), end as int),
            new_text@.len() > 0 ==> chunks_fit(
                delete_leaves(old(self).leaves(), start as int, end as int),
                start as int,
                new_text@,
            ),
            blen(old(self).text_view()) - (end - start) + blen(new_text@) <= usize::MAX,
        ensures
            final(self).wf(),
            final(self).text_view() == old(self).text_view().take(cidx(old(self).text_view(), start as int))
                + new_text@ + old(self).text_view().skip(cidx(old(self).text_view(), end as int)),
            final(self).leaves() == insert_leaves(
                delete_leaves(old(self).leaves(), start as int, end as int),
                start as int,
                new_text@,
            ),
            final(self).undo_view() == old(self).undo_view().push(
                (
                    start as int,
                    new_text@,
                    old(self).text_view().subrange(
                        cidx(old(self).text_view(), start as int),
                        cidx(old(self).text_view(), end as int),
                    ),
                ),
            ),
            final(self).redo_view().len() == 0,
    {
        let ghost t = self.rope.chars();
        let full = self.rope.text();
        let chars = chars_of(full.as_str());
        let ks = char_index_of_byte(chars.as_slice(), start);
        let ke = char_index_of_byte(chars.as_slice(), end);
        proof {
            crate::utf8len::lemma_boundary_split(t, start as int);
            crate::utf8len::lemma_boundary_split(t, end as int);
            if ke < ks {
                crate::utf8len::lemma_blen_mono(t, ke as int, ks as int);
            }
        }
        let deleted = string_from_chars(vstd::slice::slice_subrange(chars.as_slice(), ks, ke));
        self.rope.delete(start, end);
        let ghost mid = self.rope.chars();
        proof {
            assert(mid =~= t.take(ks as int) + t.skip(ke as int));
            assert(mid.take(ks as int) =~= t.take(ks as int));
            crate::utf8len::lemma_cidx_take(mid, ks as int);
            crate::utf8len::lemma_blen_concat(t.take(ks as int), t.skip(ke as int));
            assert(t =~= t.take(ke as int) + t.skip(ke as int));
            crate::utf8len::lemma_blen_concat(t.take(ke as int), t.skip(ke as int));
        }
        if !new_text.is_empty() {
            self.rope.insert(start, new_text);
        }
        proof {
            let m = self.rope.chars();
            assert(m =~= t.take(ks as int) + new_text@ + t.skip(ke as int));
            assert(deleted@ =~= t.subrange(ks as int, ke as int));
            crate::utf8len::lemma_blen_mono(t, ks as int, ke as int);
            assert(holds_at(t, start as int, deleted@));
            law_replace_inverse(t, start as int, deleted@, new_text@);
            assert(replace_at(t, start as int, deleted@, new_text@) =~= m);
        }
        let ghost old_undo = self.undo_stack@;
        let ins = Edit::Insert { pos: start, text: new_text.to_owned() };
        let del = Edit::Delete { start, end, text: deleted };
        proof {
            lemma_changes_push(old_undo, ins, del);
        }
        self.undo_stack.push(ins);
        self.undo_stack.push(del);
        self.redo_stack.clear();
        proof {
            assert(changes(self.redo_stack@).len() == 0);
            let e = (start as int, new_text@, deleted@);
            assert(changes(self.undo_stack@).drop_last() =~= changes(old_undo));
        }
    }

    pub fn insert(&mut self, pos: usize, text: &str)
        requires
            old(self).wf(),
            pos <= blen(old(self).text_view()),
            is_boundary(old(self).text_view(), pos as int),
            text@.len() > 0 ==> chunks_fit(old(self).leaves(), pos as int, text@),
            blen(old(self).text_view()) + blen(text@) <= usize::MAX,
        ensures
            final(self).wf(),
            final(self).text_view() == splice(old(self).text_view(), pos as int, text@),
            final(self).leaves() == insert_leaves(old(self).leaves(), pos as int, text@),
            final(self).undo_view() == old(self).undo_view().push(
                (pos as int, text@, Seq::<char>::empty()),
            ),
            final(self).redo_view().len() == 0,
    {
        proof {
            let t = self.text_view();
            crate::utf8len::lemma_boundary_split(t, pos as int);
            assert(t.subrange(cidx(t, pos as int), cidx(t, pos as int)) =~= Seq::<char>::empty());
        }
        self.edit(pos, pos, text);
    }

    pub fn delete(&mut self, start: usize, end: usize)
        requires
            old(self).wf(),
            start <= end <= blen(old(self).text_view()),
            is_boundary(old(self).text_view(), start as int),
            is_boundary(old(self).text_view(), end as int),
        ensures
            final(self).wf(),
            final(self).text_view() == old(self).text_view().take(cidx(old(self).text_view(), start as int))
                + old(self).text_view().skip(cidx(old(self).text_view(), end as int)),
            final(self).leaves() == delete_leaves(old(self).leaves(), start as int, end as int),
            final(self).undo_view() == old(self).undo_view().push(
                (
                    start as int,
                    Seq::<char>::empty(),
                    old(self).text_view().subrange(
                        cidx(old(self).text_view(), start as int),
                        cidx(old(self).text_view(), end as int),
                    ),
                ),
            ),
            final(self).redo_view().len() == 0,
    {
        proof {
            reveal_strlit("");
            assert(""@ =~= Seq::<char>::empty());
            lemma_blen_empty(""@);
        }
        self.edit(start, end, "");
        proof {
            reveal_strlit("");
            let t = old(self).text_view();
            assert(t.take(cidx(t, start as int)) + ""@ =~= t.take(cidx(t, start as int)));
        }
    }

    /// Reverts the last recorded change and makes it redoable; false when
    /// there is nothing to undo.
    #[verifier::spinoff_prover]
    #[verifier::rlimit(40)]
    pub fn undo(&mut self) -> (r: bool)
        requires
            old(self).wf(),
            old(self).undo_fits(),
        ensures
            final(self).wf(),
            r == (old(self).undo_view().len() > 0),
            r ==> {
                let e = old(self).undo_view().last();
                &&& final(self).text_view() == replace_at(old(self).text_view(), e.0, e.1, e.2)
                &&& final(self).leaves() == insert_leaves(
                    delete_leaves(old(self).leaves(), e.0, e.0 + blen(e.1)),
                    e.0,
                    e.2,
                )
                &&& final(self).undo_view() == old(self).undo_view().drop_last()
                &&& final(self).redo_view() == old(self).redo_view().push(e)
            },
            !r ==> final(self).text_view() == old(self).text_view() && final(self).leaves()
                == old(self).leaves() && final(self).undo_view() == old(self).undo_view()
                && final(self).redo_view() == old(self).redo_view(),
    {
        if self.undo_stack.len() < 2 {
            proof {
                assert(self.undo_stack@.len() == 0);
            }
            return false;
        }
        let ghost st = self.undo_stack@;
        let ghost t = self.rope.chars();
        proof {
            lemma_changes_pop(st);
        }
        let delete_edit = self.undo_stack.pop().unwrap();
        let insert_edit = self.undo_stack.pop().unwrap();
        proof {
            assert(self.undo_stack@ =~= st.drop_last().drop_last());
        }
        match (insert_edit, delete_edit) {
            (Edit::Insert { pos, text: inserted }, Edit::Delete { text: deleted, .. }) => {
                let ghost e = changes(st).last();
                proof {
                    crate::utf8len::lemma_boundary_split(t, pos as int);
                    crate::utf8len::lemma_boundary_split(t, pos + blen(inserted@));
                    law_replace_inverse(t, pos as int, inserted@, deleted@);
                }
                let ilen = inserted.as_str().as_bytes().len();
                let end = pos + ilen;
                if !inserted.as_str().is_empty() {
                    self.rope.delete(pos, end);
                }
                let ghost k = cidx(t, pos as int);
                let ghost k2 = cidx(t, end as int);
                proof {
                    let mid = self.rope.chars();
                    if inserted@.len() == 0 {
                        crate::utf8len::lemma_blen_empty(inserted@);
                        assert(t.take(k) + t.skip(k2) =~= t);
                    }
                    assert(mid =~= t.take(k) + t.skip(k2));
                    assert(mid.take(k) =~= t.take(k));
                    crate::utf8len::lemma_cidx_take(mid, k);
                    if k2 < k {
                        crate::utf8len::lemma_blen_mono(t, k2, k);
                    }
                    assert(t.subrange(k, k2).len() == inserted@.len());
                    assert(t =~= t.take(k) + t.subrange(k, k2) + t.skip(k2));
                    crate::utf8len::lemma_blen_concat(t.take(k), t.skip(k2));
                    crate::utf8len::lemma_blen_concat(t.take(k) + deleted@, t.skip(k2));
                    crate::utf8len::lemma_blen_concat(t.take(k), deleted@);
                    if inserted@.len() == 0 {
                        assert(delete_leaves(old(self).leaves(), pos as int, end as int)
                            == old(self).leaves());
                    }
                }
                if !deleted.as_str().is_empty() {
                    self.rope.insert(pos, deleted.as_str());
                }
                proof {
                    assert(self.rope.chars() =~= replace_at(t, pos as int, inserted@, deleted@));
                }
                let dlen = deleted.as_str().as_bytes().len();
                let ghost old_redo = self.redo_stack@;
                let ins = Edit::Insert { pos, text: inserted };
                let del = Edit::Delete { start: pos, end: pos + dlen, text: deleted };
                proof {
                    lemma_changes_push(old_redo, ins, del);
                }
                self.redo_stack.push(ins);
                self.redo_stack.push(del);
                proof {
                    let t2 = self.rope.chars();
                    assert(changes(self.undo_stack@) =~= changes(st).drop_last());
                    assert(changes(self.redo_stack@).drop_last() =~= changes(old_redo));
                    assert(changes(self.redo_stack@).last() == e);
                    assert(replace_at(t2, pos as int, deleted@, inserted@) == t);
                }
                true
            },
            _ => false,
        }
    }

    /// Re-applies the last undone change and makes it undoable again; false
    /// when there is nothing to redo.
    #[verifier::spinoff_prover]
    #[verifier::rlimit(40)]
    pub fn redo(&mut self) -> (r: bool)
        requires
            old(self).wf(),
            old(self).redo_fits(),
        ensures
            final(self).wf(),
            r == (old(self).redo_view().len() > 0),
            r ==> {
                let e = old(self).redo_view().last();
                &&& final(self).text_view() == replace_at(old(self).text_view(), e.0, e.2, e.1)
                &&& final(self).leaves() == insert_leaves(
                    delete_leaves(old(self).leaves(), e.0, e.0 + blen(e.2)),
                    e.0,
                    e.1,
                )
                &&& final(self).redo_view() == old(self).redo_view().drop_last()
                &&& final(self).undo_view() == old(self).undo_view().push(e)
            },
            !r ==> final(self).text_view() == old(self).text_view() && final(self).leaves()
                == old(self).leaves() && final(self).undo_view() == old(self).undo_view()
                && final(self).redo_view() == old(self).redo_view(),
    {
        if self.redo_stack.len() < 2 {
            proof {
                assert(self.redo_stack@.len() == 0);
            }
            return false;
        }
        let ghost st = self.redo_stack@;
        let ghost t = self.rope.chars();
        proof {
            lemma_changes_pop(st);
        }
        let delete_edit = self.redo_stack.pop().unwrap();
        let insert_edit = self.redo_stack.pop().unwrap();
        proof {
            assert(self.redo_stack@ =~= st.drop_last().drop_last());
        }
        match (insert_edit, delete_edit) {
            (Edit::Insert { pos, text: inserted }, Edit::Delete { text: deleted, .. }) => {
                let ghost e = changes(st).last();
                proof {
                    crate::utf8len::lemma_boundary_split(t, pos as int);
                    crate::utf8len::lemma_boundary_split(t, pos + blen(deleted@));
                    law_replace_inverse(t, pos as int, deleted@, inserted@);
                }
                let dlen = deleted.as_str().as_bytes().len();
                let end = pos + dlen;
                if !deleted.as_str().is_empty() {
                    self.rope.delete(pos, end);
                }
                let ghost k = cidx(t, pos as int);
                let ghost k2 = cidx(t, end as int);
                proof {
                    let mid = self.rope.chars();
                    if deleted@.len() == 0 {
                        crate::utf8len::lemma_blen_empty(deleted@);
                        assert(t.take(k) + t.skip(k2) =~= t);
                    }
                    assert(mid =~= t.take(k) + t.skip(k2));
                    assert(mid.take(k) =~= t.take(k));
                    crate::utf8len::lemma_cidx_take(mid, k);
                    if k2 < k {
                        crate::utf8len::lemma_blen_mono(t, k2, k);
                    }
                    assert(t.subrange(k, k2).len() == deleted@.len());
                    assert(t =~= t.take(k) + t.subrange(k, k2) + t.skip(k2));
                    crate::utf8len::lemma_blen_concat(t.take(k), t.skip(k2));
                    crate::utf8len::lemma_blen_concat(t.take(k) + inserted@, t.skip(k2));
                    crate::utf8len::lemma_blen_concat(t.take(k), inserted@);
                    if deleted@.len() == 0 {
                        assert(delete_leaves(old(self).leaves(), pos as int, end as int)
                            == old(self).leaves());
                    }
                }
                if !inserted.as_str().is_empty() {
                    self.rope.insert(pos, inserted.as_str());
                }
                proof {
                    assert(self.rope.chars() =~= replace_at(t, pos as int, deleted@, inserted@));
                }
                let ghost old_undo = self.undo_stack@;
                let ins = Edit::Insert { pos, text: inserted };
                let del = Edit::Delete { start: pos, end: pos + dlen, text: deleted };
                proof {
                    lemma_changes_push(old_undo, ins, del);
                }
                self.undo_stack.push(ins);
                self.undo_stack.push(del);
                proof {
                    let t2 = self.rope.chars();
                    assert(changes(self.redo_stack@) =~= changes(st).drop_last());
                    assert(changes(self.undo_stack@).drop_last() =~= changes(old_undo));
                    assert(changes(self.undo_stack@).last() == e);
                    assert(replace_at(t2, pos as int, inserted@, deleted@) == t);
                }
                true
            },
            _ => false,
        }
    }

    pub fn text(&self) -> (r: String)
        ensures
            r@ == self.text_view(),
    {
        self.rope.text()
    }

    /// Line `idx` of the text (see [`text_line`]).
    pub fn line(&self, idx: usize) -> (r: String)
        ensures
            r@ == text_line(self.text_view(), idx as int),
    {
        self.rope.line(idx)
    }

    pub fn line_count(&self) -> (n: usize)
        ensures
            n == sum_line_counts(self.leaves()),
    {
        self.rope.line_count()
    }

    pub fn char_count(&self) -> (n: usize)
        ensures
            n == blen(self.text_view()),
    {
        self.rope.char_count()
    }

    pub fn can_undo(&self) -> (b: bool)
        requires
            self.wf(),
        ensures
            b == (self.undo_view().len() > 0),
    {
        !self.undo_stack.is_empty()
    }

    pub fn can_redo(&self) -> (b: bool)
        requires
            self.wf(),
        ensures
            b == (self.redo_view().len() > 0),
    {
        !self.redo_stack.is_empty()
    }
}

} // verus!
