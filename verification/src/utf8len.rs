//! Byte lengths and character boundaries of UTF-8 encoded text, stated over
//! characters so that byte offsets can be related to character positions.
use vstd::prelude::*;
use vstd::utf8::{encode_scalar, encode_utf8};

verus! {

/// UTF-8 length of one character.
pub open spec fn clen(c: char) -> nat {
    encode_scalar(c as u32).len()
}

/// UTF-8 length of a character sequence (`str::len` of its text).
pub open spec fn blen(s: Seq<char>) -> nat {
    encode_utf8(s).len()
}

/// Index of the character that starts at byte `rem` counted from character
/// `i`; stops at the first character that starts at or after that byte.
pub open spec fn cidx_from(s: Seq<char>, i: int, rem: int) -> int
    decreases s.len() - i,
{
    if rem <= 0 || i < 0 || i >= s.len() {
        i
    } else {
        cidx_from(s, i + 1, rem - clen(s[i]))
    }
}

/// The number of characters in the first `p` bytes of `s`.
pub open spec fn cidx(s: Seq<char>, p: int) -> int {
    cidx_from(s, 0, p)
}

/// Byte `rem`, counted from character `i`, is the start of a character or the end.
pub open spec fn boundary_from(s: Seq<char>, i: int, rem: int) -> bool
    decreases s.len() - i,
{
    if rem == 0 {
        true
    } else if rem < 0 || i < 0 || i >= s.len() {
        false
    } else {
        boundary_from(s, i + 1, rem - clen(s[i]))
    }
}

/// `str::is_char_boundary`: byte `p` starts a character of `s` or is its end.
pub open spec fn is_boundary(s: Seq<char>, p: int) -> bool {
    boundary_from(s, 0, p)
}

pub proof fn lemma_clen_bounds(c: char)
    ensures
        1 <= clen(c) <= 4,
        (c as u32) < 0x80 ==> clen(c) == 1,
        0x80 <= (c as u32) < 0x800 ==> clen(c) == 2,
        0x800 <= (c as u32) < 0x10000 ==> clen(c) == 3,
        0x10000 <= (c as u32) ==> clen(c) == 4,
{
    vstd::utf8::char_is_scalar(c);
}

pub proof fn lemma_blen_empty(s: Seq<char>)
    ensures
        (blen(s) == 0) == (s.len() == 0),
        s.len() <= blen(s),
    decreases s.len(),
{
    reveal_with_fuel(encode_utf8, 1);
    if s.len() > 0 {
        lemma_clen_bounds(s[0]);
        lemma_blen_empty(s.drop_first());
    }
}

pub proof fn lemma_blen_cons(s: Seq<char>)
    requires
        s.len() > 0,
    ensures
        blen(s) == clen(s[0]) + blen(s.drop_first()),
{
}

pub proof fn lemma_blen_concat(a: Seq<char>, b: Seq<char>)
    ensures
        blen(a + b) == blen(a) + blen(b),
        encode_utf8(a + b) == encode_utf8(a) + encode_utf8(b),
    decreases a.len(),
{
    if a.len() == 0 {
        assert(a + b =~= b);
        assert(encode_utf8(a) =~= Seq::<u8>::empty());
        assert(encode_utf8(a) + encode_utf8(b) =~= encode_utf8(b));
    } else {
        assert((a + b).drop_first() =~= a.drop_first() + b);
        assert((a + b)[0] == a[0]);
        lemma_blen_concat(a.drop_first(), b);
        assert(encode_utf8(a + b) =~= encode_scalar(a[0] as u32) + encode_utf8(a.drop_first() + b));
        assert(encode_utf8(a) =~= encode_scalar(a[0] as u32) + encode_utf8(a.drop_first()));
        assert(encode_utf8(a + b) =~= encode_utf8(a) + encode_utf8(b));
    }
}

pub proof fn lemma_blen_single(c: char)
    ensures
        blen(seq![c]) == clen(c),
{
    assert(seq![c].drop_first() =~= Seq::<char>::empty());
    lemma_blen_cons(seq![c]);
}

/// Byte length of a range of characters, one character at a time.
pub proof fn lemma_blen_subrange_step(s: Seq<char>, i: int, j: int)
    requires
        0 <= i < j <= s.len(),
    ensures
        blen(s.subrange(i, j)) == clen(s[i]) + blen(s.subrange(i + 1, j)),
{
    assert(s.subrange(i, j) =~= seq![s[i]] + s.subrange(i + 1, j));
    lemma_blen_concat(seq![s[i]], s.subrange(i + 1, j));
    lemma_blen_single(s[i]);
}

pub proof fn lemma_blen_mono(s: Seq<char>, i: int, j: int)
    requires
        0 <= i <= j <= s.len(),
    ensures
        blen(s.take(i)) <= blen(s.take(j)),
        blen(s.take(j)) == blen(s.take(i)) + blen(s.subrange(i, j)),
        blen(s.take(j)) <= blen(s),
{
    assert(s.take(j) =~= s.take(i) + s.subrange(i, j));
    lemma_blen_concat(s.take(i), s.subrange(i, j));
    assert(s =~= s.take(j) + s.skip(j));
    lemma_blen_concat(s.take(j), s.skip(j));
}

/// `cidx_from` walks whole characters: it stops within range and, at a
/// boundary, lands exactly on the byte asked for.
pub proof fn lemma_cidx_from(s: Seq<char>, i: int, rem: int)
    requires
        0 <= i <= s.len(),
    ensures
        i <= cidx_from(s, i, rem) <= s.len(),
        boundary_from(s, i, rem) ==> blen(s.subrange(i, cidx_from(s, i, rem))) == rem,
        rem <= 0 ==> cidx_from(s, i, rem) == i,
        rem >= blen(s.subrange(i, s.len() as int)) ==> cidx_from(s, i, rem) == s.len(),
        0 < rem < blen(s.subrange(i, s.len() as int)) && boundary_from(s, i, rem) ==> cidx_from(
            s,
            i,
            rem,
        ) < s.len(),
        rem > 0 && i < s.len() ==> cidx_from(s, i, rem) > i,
    decreases s.len() - i,
{
    if rem <= 0 || i >= s.len() {
        assert(s.subrange(i, i) =~= Seq::<char>::empty());
        if i >= s.len() {
            assert(s.subrange(i, s.len() as int) =~= Seq::<char>::empty());
        }
    } else {
        lemma_clen_bounds(s[i]);
        lemma_cidx_from(s, i + 1, rem - clen(s[i]));
        lemma_blen_subrange_step(s, i, s.len() as int);
        let k = cidx_from(s, i + 1, rem - clen(s[i]));
        if boundary_from(s, i, rem) {
            lemma_blen_subrange_step(s, i, k);
        }
    }
}

/// Every byte from the end on (and only the end) counts as the end boundary.
pub proof fn lemma_boundary_ends(s: Seq<char>, i: int)
    requires
        0 <= i <= s.len(),
    ensures
        boundary_from(s, i, blen(s.subrange(i, s.len() as int)) as int),
        forall|r: int| r > blen(s.subrange(i, s.len() as int)) ==> !boundary_from(s, i, r),
    decreases s.len() - i,
{
    if i == s.len() {
        assert(s.subrange(i, s.len() as int) =~= Seq::<char>::empty());
        assert forall|r: int| r > blen(s.subrange(i, s.len() as int)) implies !boundary_from(
            s,
            i,
            r,
        ) by {}
    } else {
        lemma_blen_subrange_step(s, i, s.len() as int);
        lemma_clen_bounds(s[i]);
        lemma_boundary_ends(s, i + 1);
        assert forall|r: int| r > blen(s.subrange(i, s.len() as int)) implies !boundary_from(
            s,
            i,
            r,
        ) by {
            assert(r - clen(s[i]) > blen(s.subrange(i + 1, s.len() as int)));
            assert(!boundary_from(s, i + 1, r - clen(s[i])));
        }
    }
}

/// Boundaries of a concatenation are the boundaries of its two parts.
pub proof fn lemma_boundary_concat(a: Seq<char>, b: Seq<char>, p: int)
    ensures
        p <= blen(a) ==> (is_boundary(a + b, p) == is_boundary(a, p)),
        p >= blen(a) ==> (is_boundary(a + b, p) == is_boundary(b, p - blen(a))),
        p <= blen(a) && is_boundary(a + b, p) ==> cidx(a + b, p) == cidx(a, p),
        p >= blen(a) && is_boundary(a + b, p) ==> cidx(a + b, p) == a.len() + cidx(b, p - blen(a)),
    decreases a.len(),
{
    if a.len() == 0 {
        assert(a + b =~= b);
        lemma_boundary_ends(a, 0);
        assert(a.subrange(0, 0) =~= a);
    } else {
        lemma_clen_bounds(a[0]);
        lemma_blen_cons(a);
        let a1 = a.drop_first();
        assert((a + b).drop_first() =~= a1 + b);
        lemma_boundary_concat(a1, b, p - clen(a[0]));
        lemma_shift(a + b, p);
        lemma_shift(a, p);
        if p == blen(a) {
            lemma_boundary_ends(a, 0);
            assert(a.subrange(0, a.len() as int) =~= a);
        }
    }
}

/// The first step of the boundary and index walks.
pub proof fn lemma_shift(s: Seq<char>, p: int)
    requires
        s.len() > 0,
    ensures
        p != 0 ==> (is_boundary(s, p) == (p > 0 && is_boundary(s.drop_first(), p - clen(s[0])))),
        p > 0 ==> cidx(s, p) == 1 + cidx(s.drop_first(), p - clen(s[0])),
{
    lemma_from_shift(s, 0, p - clen(s[0]));
}

/// Walks started at character `i + 1` of `s` are walks over `s.drop_first()` started at `i`.
pub proof fn lemma_from_shift(s: Seq<char>, i: int, rem: int)
    requires
        s.len() > 0,
        0 <= i <= s.len() - 1,
    ensures
        boundary_from(s, i + 1, rem) == boundary_from(s.drop_first(), i, rem),
        cidx_from(s, i + 1, rem) == 1 + cidx_from(s.drop_first(), i, rem),
    decreases s.len() - i,
{
    if rem <= 0 || i + 1 >= s.len() {
    } else {
        assert(s.drop_first()[i] == s[i + 1]);
        lemma_from_shift(s, i + 1, rem - clen(s[i + 1]));
    }
}

/// At a boundary the text splits into the characters before and after it.
pub proof fn lemma_boundary_split(s: Seq<char>, p: int)
    requires
        is_boundary(s, p),
    ensures
        0 <= cidx(s, p) <= s.len(),
        0 <= p <= blen(s),
        blen(s.take(cidx(s, p))) == p,
        blen(s.skip(cidx(s, p))) == blen(s) - p,
{
    lemma_cidx_from(s, 0, p);
    let k = cidx(s, p);
    assert(s.subrange(0, k) =~= s.take(k));
    assert(s =~= s.take(k) + s.skip(k));
    lemma_blen_concat(s.take(k), s.skip(k));
    if p < 0 {
    }
}

/// The character count at the boundary after `k` characters is `k`.
pub proof fn lemma_cidx_take(s: Seq<char>, k: int)
    requires
        0 <= k <= s.len(),
    ensures
        is_boundary(s, blen(s.take(k)) as int),
        cidx(s, blen(s.take(k)) as int) == k,
{
    assert(s =~= s.take(k) + s.skip(k));
    lemma_boundary_concat(s.take(k), s.skip(k), blen(s.take(k)) as int);
    lemma_boundary_ends(s.take(k), 0);
    assert(s.take(k).subrange(0, k) =~= s.take(k));
    lemma_cidx_from(s.take(k), 0, blen(s.take(k)) as int);
    assert(s.skip(k).subrange(0, 0) =~= Seq::<char>::empty());
    assert(cidx(s.skip(k), 0) == 0);
    assert(is_boundary(s.skip(k), 0));
}

/// UTF-8 length of one character, from its scalar value.
pub fn char_utf8_len(c: char) -> (n: usize)
    ensures
        n == clen(c),
{
    proof {
        lemma_clen_bounds(c);
    }
    let u = c as u32;
    if u < 0x80 {
        1
    } else if u < 0x800 {
        2
    } else if u < 0x10000 {
        3
    } else {
        4
    }
}

/// Number of characters in the first `p` bytes of `s` (see [`cidx`]).
pub fn char_index_of_byte(s: &[char], p: usize) -> (k: usize)
    ensures
        k == cidx(s@, p as int),
        k <= s@.len(),
{
    let mut i: usize = 0;
    let mut rem: usize = p;
    proof {
        lemma_cidx_from(s@, 0, p as int);
    }
    while rem > 0 && i < s.len()
        invariant
            i <= s@.len(),
            cidx_from(s@, i as int, rem as int) == cidx(s@, p as int),
        decreases s@.len() - i,
    {
        let w = char_utf8_len(s[i]);
        if w >= rem {
            proof {
                lemma_clen_bounds(s@[i as int]);
                assert(cidx_from(s@, i as int + 1, rem - w) == i + 1);
            }
            return i + 1;
        }
        rem = rem - w;
        i = i + 1;
    }
    i
}

/// Whether byte `p` starts a character of `s` or is its end (`str::is_char_boundary`).
pub fn is_char_boundary(s: &[char], p: usize) -> (b: bool)
    ensures
        b == is_boundary(s@, p as int),
{
    let mut i: usize = 0;
    let mut rem: usize = p;
    while rem > 0 && i < s.len()
        invariant
            i <= s@.len(),
            boundary_from(s@, i as int, rem as int) == is_boundary(s@, p as int),
        decreases s@.len() - i,
    {
        let w = char_utf8_len(s[i]);
        if w > rem {
            proof {
                lemma_clen_bounds(s@[i as int]);
                assert(!boundary_from(s@, i as int + 1, rem - w));
            }
            return false;
        }
        rem = rem - w;
        i = i + 1;
    }
    rem == 0
}

/// A run of one ASCII character is as long in bytes as in characters.
pub proof fn lemma_blen_ascii_run(s: Seq<char>, c: char)
    requires
        (c as u32) < 0x80,
        forall|k: int| 0 <= k < s.len() ==> s[k] == c,
    ensures
        blen(s) == s.len(),
    decreases s.len(),
{
    lemma_blen_empty(s);
    if s.len() > 0 {
        lemma_blen_cons(s);
        lemma_clen_bounds(s[0]);
        lemma_blen_ascii_run(s.drop_first(), c);
    }
}

/// A byte offset reached by a prefix of ASCII characters is a boundary.
pub proof fn lemma_ascii_prefix_boundary(s: Seq<char>, p: int)
    requires
        0 <= p <= s.len(),
        forall|k: int| 0 <= k < p ==> (s[k] as u32) < 0x80,
    ensures
        is_boundary(s, p),
{
    lemma_ascii_boundary_from(s, 0, p);
}

proof fn lemma_ascii_boundary_from(s: Seq<char>, i: int, p: int)
    requires
        0 <= i <= p <= s.len(),
        forall|k: int| 0 <= k < p ==> (s[k] as u32) < 0x80,
    ensures
        boundary_from(s, i, p - i),
    decreases p - i,
{
    if i < p {
        lemma_clen_bounds(s[i]);
        lemma_ascii_boundary_from(s, i + 1, p);
    }
}

proof fn lemma_or_high(x: u8)
    by (bit_vector)
    ensures
        (0x80u8 | x) >= 0x80u8,
        (0xC0u8 | x) >= 0x80u8,
        (0xE0u8 | x) >= 0x80u8,
        (0xF0u8 | x) >= 0x80u8,
{
}

/// Every byte of the encoding of a character that takes more than one byte
/// has its high bit set.
proof fn lemma_wide_bytes_high(c: char, k: int)
    requires
        clen(c) >= 2,
        0 <= k < clen(c),
    ensures
        encode_scalar(c as u32)[k] >= 0x80,
{
    let v = c as u32;
    lemma_or_high(((v >> 6) & 0x1F) as u8);
    lemma_or_high(((v >> 12) & 0x0F) as u8);
    lemma_or_high(((v >> 18) & 0x7) as u8);
    lemma_or_high((v & 0x3F) as u8);
    lemma_or_high(((v >> 6) & 0x3F) as u8);
    lemma_or_high(((v >> 12) & 0x3F) as u8);
}

/// A byte below `0x80` of a text's encoding is a whole character: the
/// offsets before and after it are character boundaries.
pub proof fn lemma_ascii_byte_boundaries(s: Seq<char>, p: int)
    requires
        0 <= p < blen(s),
        encode_utf8(s)[p] < 0x80,
    ensures
        is_boundary(s, p),
        is_boundary(s, p + 1),
    decreases s.len(),
{
    lemma_blen_empty(s);
    lemma_clen_bounds(s[0]);
    let l = clen(s[0]) as int;
    let e = encode_scalar(s[0] as u32);
    assert(encode_utf8(s) == e + encode_utf8(s.drop_first()));
    lemma_shift(s, p);
    lemma_shift(s, p + 1);
    if p < l {
        assert(encode_utf8(s)[p] == e[p]);
        if l >= 2 {
            lemma_wide_bytes_high(s[0], p);
        }
        assert(p == 0 && l == 1);
        assert(is_boundary(s.drop_first(), 0));
    } else {
        assert(encode_utf8(s)[p] == encode_utf8(s.drop_first())[p - l]);
        lemma_blen_cons(s);
        lemma_ascii_byte_boundaries(s.drop_first(), p - l);
    }
}

} // verus!
