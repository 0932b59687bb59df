//! Inline parsing: emphasis, code spans, links, images, math, footnote
//! references, HTML tags and line breaks, scanned left to right over the
//! characters of a text.
use vstd::prelude::*;
use crate::markdown::ast::{
    Inline,
    InlineModel,
    lemma_children_models,
    lemma_link_model,
    lemma_models_push,
    models,
    opt_view,
};
use crate::text::{chars_of, string_from_chars};

verus! {

/// First `j >= i` with `s[j] == s[j + 1] == m`.
pub open spec fn find_double(s: Seq<char>, i: int, m: char) -> Option<int>
    decreases s.len() - i,
{
    if i < 0 || i + 1 >= s.len() {
        None
    } else if s[i] == m && s[i + 1] == m {
        Some(i)
    } else {
        find_double(s, i + 1, m)
    }
}

/// First `j >= i` with `s[j] == m`.
pub open spec fn find_char(s: Seq<char>, i: int, m: char) -> Option<int>
    decreases s.len() - i,
{
    if i < 0 || i >= s.len() {
        None
    } else if s[i] == m {
        Some(i)
    } else {
        find_char(s, i + 1, m)
    }
}

/// Length of the run of backticks starting at `i`.
pub open spec fn tick_run(s: Seq<char>, i: int) -> nat
    decreases s.len() - i,
{
    if 0 <= i < s.len() && s[i] == '`' {
        1 + tick_run(s, i + 1)
    } else {
        0
    }
}

/// The `n` characters from `i` on are all backticks.
pub open spec fn all_ticks(s: Seq<char>, i: int, n: nat) -> bool {
    forall|k: int| i <= k < i + n ==> s[k] == '`'
}

/// First `j >= i` where `n` backticks in a row start.
pub open spec fn find_ticks(s: Seq<char>, i: int, n: nat) -> Option<int>
    decreases s.len() + 1 - i,
{
    if i < 0 || i + n > s.len() {
        None
    } else if all_ticks(s, i, n) {
        Some(i)
    } else {
        find_ticks(s, i + 1, n)
    }
}

/// Characters that end a run of plain text.
pub open spec fn is_special(c: char) -> bool {
    c == '*' || c == '_' || c == '`' || c == '[' || c == '!' || c == '$' || c == '~' || c == '<'
        || c == '\n' || c == '\\'
}

/// Two spaces and a newline at `i`: a hard line break.
pub open spec fn spaces_break_at(s: Seq<char>, i: int) -> bool {
    0 <= i && i + 2 < s.len() && s[i] == ' ' && s[i + 1] == ' ' && s[i + 2] == '\n'
}

/// End of the plain text that starts at `i`: the first special character,
/// or the first hard line break made of two spaces and a newline.
pub open spec fn text_end(s: Seq<char>, i: int) -> int
    decreases s.len() - i,
{
    if 0 <= i < s.len() && !is_special(s[i]) && !spaces_break_at(s, i) {
        text_end(s, i + 1)
    } else {
        i
    }
}

/// `text](url)` starting at `st`: the positions of `]` and `)`.
pub open spec fn link_at(s: Seq<char>, st: int) -> Option<(int, int)> {
    match find_char(s, st, ']') {
        None => None,
        Some(j) => if j + 1 < s.len() && s[j + 1] == '(' {
            match find_char(s, j + 2, ')') {
                None => None,
                Some(k) => Some((j, k)),
            }
        } else {
            None
        },
    }
}

/// `**` or `__` at `i`.
pub open spec fn bold_at(s: Seq<char>, i: int) -> bool {
    (s[i] == '*' && i + 1 < s.len() && s[i + 1] == '*') || (s[i] == '_' && i + 1 < s.len() && s[
        i + 1
    ] == '_')
}

/// What the parser recognises at a position, with the positions that
/// delimit it.
pub enum Tok {
    Hard(int),
    Soft,
    Bold(int),
    Strike(int),
    Italic(int),
    Code(nat, int),
    Image(int, int),
    Link(int, int),
    Math(int),
    Foot(int),
    Html(int),
    Text(int),
}

/// The first rule that applies at `i`, in the order the parser tries them.
pub open spec fn tok_at(s: Seq<char>, i: int) -> Tok {
    let n = s.len() as int;
    let c = s[i];
    if c == '\\' && i + 1 < n && s[i + 1] == '\n' {
        Tok::Hard(i + 2)
    } else if c == ' ' && i + 2 < n && s[i + 1] == ' ' && s[i + 2] == '\n' {
        Tok::Hard(i + 3)
    } else if c == '\n' {
        Tok::Soft
    } else if bold_at(s, i) && find_double(s, i + 2, c) is Some {
        Tok::Bold(find_double(s, i + 2, c)->0)
    } else if c == '~' && i + 1 < n && s[i + 1] == '~' && find_double(s, i + 2, '~') is Some {
        Tok::Strike(find_double(s, i + 2, '~')->0)
    } else if (c == '*' || c == '_') && find_char(s, i + 1, c) is Some {
        Tok::Italic(find_char(s, i + 1, c)->0)
    } else if c == '`' && find_ticks(s, i + tick_run(s, i), tick_run(s, i)) is Some {
        Tok::Code(tick_run(s, i), find_ticks(s, i + tick_run(s, i), tick_run(s, i))->0)
    } else if c == '!' && i + 1 < n && s[i + 1] == '[' && link_at(s, i + 2) is Some {
        let (j, k) = link_at(s, i + 2)->0;
        Tok::Image(j, k)
    } else if c == '[' && link_at(s, i + 1) is Some {
        let (j, k) = link_at(s, i + 1)->0;
        Tok::Link(j, k)
    } else if c == '$' && find_char(s, i + 1, '$') is Some {
        Tok::Math(find_char(s, i + 1, '$')->0)
    } else if c == '[' && i + 1 < n && s[i + 1] == '^' && find_char(s, i + 2, ']') is Some {
        Tok::Foot(find_char(s, i + 2, ']')->0)
    } else if c == '<' && find_char(s, i, '>') is Some {
        Tok::Html(find_char(s, i, '>')->0)
    } else if text_end(s, i) > i {
        Tok::Text(text_end(s, i))
    } else {
        Tok::Text(i + 1)
    }
}

/// Where scanning resumes after the token at `i`.
pub open spec fn tok_next(i: int, t: Tok) -> int {
    match t {
        Tok::Hard(j) => j,
        Tok::Soft => i + 1,
        Tok::Bold(e) => e + 2,
        Tok::Strike(e) => e + 2,
        Tok::Italic(e) => e + 1,
        Tok::Code(c, e) => e + c,
        Tok::Image(_, k) => k + 1,
        Tok::Link(_, k) => k + 1,
        Tok::Math(e) => e + 1,
        Tok::Foot(e) => e + 1,
        Tok::Html(e) => e + 1,
        Tok::Text(j) => j,
    }
}

pub proof fn lemma_find_double(s: Seq<char>, i: int, m: char)
    ensures
        find_double(s, i, m) matches Some(e) ==> i <= e && e + 1 < s.len() && s[e] == m && s[e
            + 1] == m,
    decreases s.len() - i,
{
    if !(i < 0 || i + 1 >= s.len()) && !(s[i] == m && s[i + 1] == m) {
        lemma_find_double(s, i + 1, m);
    }
}

pub proof fn lemma_find_char(s: Seq<char>, i: int, m: char)
    ensures
        find_char(s, i, m) matches Some(e) ==> i <= e < s.len() && s[e] == m,
    decreases s.len() - i,
{
    if 0 <= i < s.len() && s[i] != m {
        lemma_find_char(s, i + 1, m);
    }
}

pub proof fn lemma_find_ticks(s: Seq<char>, i: int, n: nat)
    ensures
        find_ticks(s, i, n) matches Some(e) ==> i <= e && e + n <= s.len(),
    decreases s.len() + 1 - i,
{
    if !(i < 0 || i + n > s.len()) && !all_ticks(s, i, n) {
        lemma_find_ticks(s, i + 1, n);
    }
}

pub proof fn lemma_text_end(s: Seq<char>, i: int)
    requires
        0 <= i <= s.len(),
    ensures
        i <= text_end(s, i) <= s.len(),
    decreases s.len() - i,
{
    if i < s.len() && !is_special(s[i]) && !spaces_break_at(s, i) {
        lemma_text_end(s, i + 1);
    }
}

pub proof fn lemma_tick_run(s: Seq<char>, i: int)
    requires
        0 <= i <= s.len(),
    ensures
        i < s.len() && s[i] == '`' ==> tick_run(s, i) >= 1,
        tick_run(s, i) <= s.len() - i,
    decreases s.len() - i,
{
    if i < s.len() && s[i] == '`' {
        lemma_tick_run(s, i + 1);
    }
}

pub proof fn lemma_link_at(s: Seq<char>, st: int)
    ensures
        link_at(s, st) matches Some((j, k)) ==> st <= j && j + 2 <= k < s.len() && s[j] == ']'
            && s[j + 1] == '(' && s[k] == ')',
{
    lemma_find_char(s, st, ']');
    if let Some(j) = find_char(s, st, ']') {
        lemma_find_char(s, j + 2, ')');
    }
}

/// The token at `i` ends after `i`, within the text, and the texts it
/// parses again are shorter than `s`.
pub proof fn lemma_tok(s: Seq<char>, i: int)
    requires
        0 <= i < s.len(),
    ensures
        i < tok_next(i, tok_at(s, i)) <= s.len(),
        tok_at(s, i) matches Tok::Bold(e) ==> i + 2 <= e && e + 1 < s.len(),
        tok_at(s, i) matches Tok::Strike(e) ==> i + 2 <= e && e + 1 < s.len(),
        tok_at(s, i) matches Tok::Italic(e) ==> i + 1 <= e < s.len(),
        tok_at(s, i) matches Tok::Code(c, e) ==> c >= 1 && i + c <= e && e + c <= s.len(),
        tok_at(s, i) matches Tok::Image(j, k) ==> i + 2 <= j && j + 2 <= k < s.len(),
        tok_at(s, i) matches Tok::Link(j, k) ==> i + 1 <= j && j + 2 <= k < s.len(),
        tok_at(s, i) matches Tok::Math(e) ==> i + 1 <= e < s.len(),
        tok_at(s, i) matches Tok::Foot(e) ==> i + 2 <= e < s.len(),
        tok_at(s, i) matches Tok::Html(e) ==> i <= e < s.len(),
{
    let c = s[i];
    lemma_find_double(s, i + 2, c);
    lemma_find_double(s, i + 2, '~');
    lemma_find_char(s, i + 1, c);
    if c == '`' {
        lemma_tick_run(s, i);
    }
    lemma_find_ticks(s, i + tick_run(s, i), tick_run(s, i));
    lemma_link_at(s, i + 2);
    lemma_link_at(s, i + 1);
    lemma_find_char(s, i + 1, '$');
    lemma_find_char(s, i + 2, ']');
    lemma_find_char(s, i, '>');
    lemma_text_end(s, i);
}

/// The inline nodes of `s` from position `i` on.
pub open spec fn parse_from(s: Seq<char>, i: int) -> Seq<InlineModel>
    decreases s.len(), s.len() - i,
{
    if i < 0 || i >= s.len() {
        seq![]
    } else {
        let t = tok_at(s, i);
        proof {
            lemma_tok(s, i);
        }
        let head = match t {
            Tok::Hard(_) => InlineModel::HardBreak,
            Tok::Soft => InlineModel::SoftBreak,
            Tok::Bold(e) => InlineModel::Bold(parse_from(s.subrange(i + 2, e), 0)),
            Tok::Strike(e) => InlineModel::Strikethrough(parse_from(s.subrange(i + 2, e), 0)),
            Tok::Italic(e) => InlineModel::Italic(parse_from(s.subrange(i + 1, e), 0)),
            Tok::Code(c, e) => InlineModel::Code(s.subrange(i + c, e)),
            Tok::Image(j, k) => InlineModel::Image {
                alt: s.subrange(i + 2, j),
                url: s.subrange(j + 2, k),
                title: None,
            },
            Tok::Link(j, k) => InlineModel::Link {
                text: parse_from(s.subrange(i + 1, j), 0),
                url: s.subrange(j + 2, k),
                title: None,
            },
            Tok::Math(e) => InlineModel::Math(s.subrange(i + 1, e)),
            Tok::Foot(e) => InlineModel::FootnoteRef(s.subrange(i + 2, e)),
            Tok::Html(e) => InlineModel::HtmlTag(s.subrange(i, e + 1)),
            Tok::Text(j) => InlineModel::Text(s.subrange(i, j)),
        };
        seq![head] + parse_from(s, tok_next(i, t))
    }
}

/// The inline nodes of a text.
pub open spec fn inline_model(s: Seq<char>) -> Seq<InlineModel> {
    parse_from(s, 0)
}

proof fn lemma_text_end_plain(s: Seq<char>, i: int)
    requires
        0 <= i <= s.len(),
        forall|k: int| 0 <= k < s.len() ==> !is_special(#[trigger] s[k]),
    ensures
        text_end(s, i) == s.len(),
    decreases s.len() - i,
{
    if i < s.len() {
        if i + 2 < s.len() {
            assert(!is_special(s[i + 2]));
        }
        lemma_text_end_plain(s, i + 1);
    }
}

/// A non-empty text without any of the characters that start inline
/// markup (`*`, `_`, `` ` ``, `[`, `!`, `$`, `~`, `<`, line breaks and `\`)
/// is a single text node.
pub proof fn law_plain_text(s: Seq<char>)
    requires
        s.len() > 0,
        forall|k: int| 0 <= k < s.len() ==> !is_special(#[trigger] s[k]),
    ensures
        inline_model(s) == seq![InlineModel::Text(s)],
{
    lemma_text_end_plain(s, 0);
    assert(!is_special(s[0]));
    if s.len() > 2 {
        assert(!is_special(s[2]));
    }
    assert(tok_at(s, 0) == Tok::Text(s.len() as int));
    assert(s.subrange(0, s.len() as int) =~= s);
    assert(parse_from(s, s.len() as int) =~= seq![]);
    assert(inline_model(s) =~= seq![InlineModel::Text(s)]);
}

/// Opening `**`/`__`/`~~` closes at the first later double `marker`.
fn find_closing_double(chars: &[char], start: usize, marker: char) -> (r: Option<usize>)
    ensures
        match r {
            Some(e) => find_double(chars@, start as int, marker) == Some(e as int),
            None => find_double(chars@, start as int, marker) is None,
        },
{
    let mut i = start;
    while i < chars.len() && chars.len() - i > 1
        invariant
            start <= i,
            find_double(chars@, start as int, marker) == find_double(chars@, i as int, marker),
        decreases chars.len() - i,
    {
        if chars[i] == marker && chars[i + 1] == marker {
            return Some(i);
        }
        i += 1;
    }
    None
}

/// First `marker` at or after `start`.
pub(crate) fn find_closing_single(chars: &[char], start: usize, marker: char) -> (r: Option<usize>)
    ensures
        match r {
            Some(e) => find_char(chars@, start as int, marker) == Some(e as int),
            None => find_char(chars@, start as int, marker) is None,
        },
{
    let mut i = start;
    while i < chars.len()
        invariant
            start <= i,
            find_char(chars@, start as int, marker) == find_char(chars@, i as int, marker),
        decreases chars.len() - i,
    {
        if chars[i] == marker {
            return Some(i);
        }
        i += 1;
    }
    None
}

/// Length of the run of backticks at `start`.
fn count_backticks(chars: &[char], start: usize) -> (r: usize)
    requires
        start <= chars@.len(),
    ensures
        r == tick_run(chars@, start as int),
{
    let mut j = start;
    while j < chars.len() && chars[j] == '`'
        invariant
            start <= j <= chars@.len(),
            tick_run(chars@, start as int) == (j - start) + tick_run(chars@, j as int),
        decreases chars.len() - j,
    {
        j += 1;
    }
    j - start
}

/// First position at or after `start` where `count` backticks follow.
fn find_closing_backticks(chars: &[char], start: usize, count: usize) -> (r: Option<usize>)
    ensures
        match r {
            Some(e) => find_ticks(chars@, start as int, count as nat) == Some(e as int),
            None => find_ticks(chars@, start as int, count as nat) is None,
        },
{
    let mut i = start;
    while count <= chars.len() && i <= chars.len() - count
        invariant
            start <= i,
            find_ticks(chars@, start as int, count as nat) == find_ticks(
                chars@,
                i as int,
                count as nat,
            ),
        decreases chars.len() + 1 - i,
    {
        let mut k: usize = 0;
        let mut all = true;
        while k < count
            invariant
                k <= count,
                i + count <= chars@.len(),
                chars@.len() <= usize::MAX,
                all == (forall|q: int| i <= q < i + k ==> chars@[q] == '`'),
            decreases count - k,
        {
            if chars[i + k] != '`' {
                all = false;
            }
            k += 1;
        }
        if all {
            return Some(i);
        }
        i += 1;
    }
    None
}

/// `text](url)` from `start`: the text, the url, and the position after `)`.
fn parse_link_or_image(chars: &[char], start: usize, _is_image: bool) -> (r: Option<
    (String, String, usize),
>)
    ensures
        match link_at(chars@, start as int) {
            None => r is None,
            Some((j, k)) => r matches Some((t, u, e)) && t@ == chars@.subrange(start as int, j)
                && u@ == chars@.subrange(j + 2, k) && e == k + 1,
        },
{
    proof {
        lemma_link_at(chars@, start as int);
    }
    let j = match find_closing_single(chars, start, ']') {
        Some(j) => j,
        None => return None,
    };
    proof {
        lemma_find_char(chars@, start as int, ']');
    }
    let n = chars.len();
    let text = string_from_chars(vstd::slice::slice_subrange(chars, start, j));
    let i = j + 1;
    if i >= chars.len() || chars[i] != '(' {
        return None;
    }
    let url_start = i + 1;
    let k = match find_closing_single(chars, url_start, ')') {
        Some(k) => k,
        None => return None,
    };
    proof {
        lemma_find_char(chars@, url_start as int, ')');
    }
    let url = string_from_chars(vstd::slice::slice_subrange(chars, url_start, k));
    Some((text, url, k + 1))
}

/// First `]` at or after `start`.
fn find_closing_bracket(chars: &[char], start: usize) -> (r: Option<usize>)
    ensures
        match r {
            Some(e) => find_char(chars@, start as int, ']') == Some(e as int),
            None => find_char(chars@, start as int, ']') is None,
        },
{
    find_closing_single(chars, start, ']')
}

/// Position just after the first `>` at or after `start`.
fn find_tag_end(chars: &[char], start: usize) -> (r: Option<usize>)
    ensures
        match r {
            Some(e) => find_char(chars@, start as int, '>') == Some(e - 1),
            None => find_char(chars@, start as int, '>') is None,
        },
{
    proof {
        lemma_find_char(chars@, start as int, '>');
    }
    let n = chars.len();
    match find_closing_single(chars, start, '>') {
        Some(e) => Some(e + 1),
        None => None,
    }
}

/// Text of `chars[a..b]`.
fn slice_text(chars: &[char], a: usize, b: usize) -> (r: String)
    requires
        a <= b <= chars@.len(),
    ensures
        r@ == chars@.subrange(a as int, b as int),
{
    string_from_chars(vstd::slice::slice_subrange(chars, a, b))
}

/// Parses inline elements from a text: `**bold**`, `*italic*`,
/// `~~strikethrough~~`, `` `code` ``, `[link](url)`, `![image](url)`,
/// `$math$`, `[^ref]`, `<html>`, and hard and soft line breaks.
pub fn parse_inline(text: &str) -> (r: Vec<Inline>)
    ensures
        models(r@) == inline_model(text@),
{
    let chars = chars_of(text);
    parse_inline_chars(chars.as_slice())
}

/// [`parse_inline`] over characters.
pub fn parse_inline_chars(chars: &[char]) -> (r: Vec<Inline>)
    ensures
        models(r@) == inline_model(chars@),
    decreases chars@.len(),
{
    let ghost s = chars@;
    let n = chars.len();
    let mut result: Vec<Inline> = Vec::new();
    let mut i: usize = 0;
    while i < n
        invariant
            n == s.len(),
            s == chars@,
            i <= n,
            models(result@) + parse_from(s, i as int) == parse_from(s, 0),
        decreases n - i,
    {
        proof {
            lemma_tok(s, i as int);
        }
        let ghost t = tok_at(s, i as int);
        let ghost before = models(result@);
        let c = chars[i];
        let mut item: Option<(Inline, usize)> = None;
        if c == '\\' && n - i > 1 && chars[i + 1] == '\n' {
            item = Some((Inline::HardBreak, i + 2));
        } else if c == ' ' && n - i > 2 && chars[i + 1] == ' ' && chars[i + 2] == '\n' {
            item = Some((Inline::HardBreak, i + 3));
        } else if c == '\n' {
            item = Some((Inline::SoftBreak, i + 1));
        }
        if item.is_none() {
            let is_bold = (c == '*' && n - i > 1 && chars[i + 1] == '*') || (c == '_' && n - i > 1
                && chars[i + 1] == '_');
            if is_bold {
                if let Some(end) = find_closing_double(chars, i + 2, c) {
                    proof {
                        lemma_find_double(s, i + 2, c);
                    }
                    let children = parse_inline_chars(vstd::slice::slice_subrange(chars, i + 2, end));
                    proof {
                        lemma_children_models(children);
                    }
                    item = Some((Inline::Bold(children), end + 2));
                }
            }
        }
        if item.is_none() && n - i > 1 && c == '~' && chars[i + 1] == '~' {
            if let Some(end) = find_closing_double(chars, i + 2, '~') {
                proof {
                    lemma_find_double(s, i + 2, '~');
                }
                let children = parse_inline_chars(vstd::slice::slice_subrange(chars, i + 2, end));
                proof {
                    lemma_children_models(children);
                }
                item = Some((Inline::Strikethrough(children), end + 2));
            }
        }
        if item.is_none() && (c == '*' || c == '_') {
            if let Some(end) = find_closing_single(chars, i + 1, c) {
                proof {
                    lemma_find_char(s, i + 1, c);
                }
                let children = parse_inline_chars(vstd::slice::slice_subrange(chars, i + 1, end));
                proof {
                    lemma_children_models(children);
                }
                item = Some((Inline::Italic(children), end + 1));
            }
        }
        if item.is_none() && c == '`' {
            let count = count_backticks(chars, i);
            proof {
                lemma_tick_run(s, i as int);
            }
            if let Some(end) = find_closing_backticks(chars, i + count, count) {
                proof {
                    lemma_find_ticks(s, i + count, count as nat);
                }
                item = Some((Inline::Code(slice_text(chars, i + count, end)), end + count));
            }
        }
        if item.is_none() && c == '!' && n - i > 1 && chars[i + 1] == '[' {
            proof {
                lemma_link_at(s, i + 2);
            }
            if let Some((alt, url, end)) = parse_link_or_image(chars, i + 2, true) {
                item = Some((Inline::Image { alt, url, title: None }, end));
            }
        }
        if item.is_none() && c == '[' {
            proof {
                lemma_link_at(s, i + 1);
            }
            if let Some((text, url, end)) = parse_link_or_image(chars, i + 1, false) {
                let text_chars = chars_of(text.as_str());
                let children = parse_inline_chars(text_chars.as_slice());
                proof {
                    lemma_link_model(children, url, None);
                }
                item = Some((Inline::Link { text: children, url, title: None }, end));
            }
        }
        if item.is_none() && c == '$' {
            if let Some(end) = find_closing_single(chars, i + 1, '$') {
                proof {
                    lemma_find_char(s, i + 1, '$');
                }
                item = Some((Inline::Math(slice_text(chars, i + 1, end)), end + 1));
            }
        }
        if item.is_none() && c == '[' && n - i > 1 && chars[i + 1] == '^' {
            if let Some(end) = find_closing_bracket(chars, i + 2) {
                proof {
                    lemma_find_char(s, i + 2, ']');
                }
                item = Some((Inline::FootnoteRef(slice_text(chars, i + 2, end)), end + 1));
            }
        }
        if item.is_none() && c == '<' {
            if let Some(end) = find_tag_end(chars, i) {
                proof {
                    lemma_find_char(s, i as int, '>');
                }
                item = Some((Inline::HtmlTag(slice_text(chars, i, end)), end));
            }
        }
        let (node, next) = match item {
            Some(p) => p,
            None => {
                let start = i;
                let mut j = i;
                while j < n
                    invariant
                        start <= j <= n,
                        n == s.len(),
                        s == chars@,
                        text_end(s, start as int) == text_end(s, j as int),
                    ensures
                        start <= j <= n,
                        text_end(s, start as int) == j,
                    decreases n - j,
                {
                    let d = chars[j];
                    if d == '*' || d == '_' || d == '`' || d == '[' || d == '!' || d == '$' || d
                        == '~' || d == '<' || d == '\n' || d == '\\' {
                        break;
                    }
                    if d == ' ' && n - j > 2 && chars[j + 1] == ' ' && chars[j + 2] == '\n' {
                        break;
                    }
                    j += 1;
                }
                if j > start {
                    (Inline::Text(slice_text(chars, start, j)), j)
                } else {
                    (Inline::Text(slice_text(chars, start, start + 1)), start + 1)
                }
            },
        };
        proof {
            assert(node.view() == parse_from(s, i as int)[0]);
            assert(next == tok_next(i as int, t));
            lemma_models_push(result@, node);
        }
        result.push(node);
        proof {
            assert(parse_from(s, i as int) =~= seq![node.view()] + parse_from(s, next as int));
            assert(models(result@) + parse_from(s, next as int) =~= before + parse_from(
                s,
                i as int,
            ));
        }
        i = next;
    }
    proof {
        assert(models(result@) =~= models(result@) + parse_from(s, n as int));
    }
    result
}

} // verus!

verus! {

proof fn lemma_find_double_at(s: Seq<char>, i: int, e: int, m: char)
    requires
        0 <= i <= e,
        e + 1 < s.len(),
        s[e] == m,
        s[e + 1] == m,
        forall|k: int| i <= k < e ==> s[k] != m,
    ensures
        find_double(s, i, m) == Some(e),
    decreases e - i,
{
    if i < e {
        lemma_find_double_at(s, i + 1, e, m);
    }
}

/// Text between `~~` and `~~` (holding no `~` itself) is struck through,
/// and the struck-through children are exactly the inline nodes of that
/// text: neither delimiter is part of them, and nothing else is produced.
pub proof fn law_strikethrough(x: Seq<char>)
    requires
        forall|k: int| 0 <= k < x.len() ==> x[k] != '~',
    ensures
        inline_model(seq!['~', '~'] + x + seq!['~', '~']) == seq![
            InlineModel::Strikethrough(inline_model(x)),
        ],
{
    let s = seq!['~', '~'] + x + seq!['~', '~'];
    let e: int = x.len() as int + 2;
    assert forall|k: int| 2 <= k < e implies s[k] != '~' by {
        assert(s[k] == x[k - 2]);
    }
    lemma_find_double_at(s, 2, e, '~');
    assert(!bold_at(s, 0));
    assert(tok_at(s, 0) == Tok::Strike(e));
    assert(s.subrange(2, e) =~= x);
    assert(parse_from(s, e + 2) =~= Seq::<InlineModel>::empty());
    assert(parse_from(s, 0) =~= seq![InlineModel::Strikethrough(inline_model(x))]);
}

} // verus!

verus! {

proof fn lemma_find_char_at(s: Seq<char>, i: int, e: int, c: char)
    requires
        0 <= i <= e < s.len(),
        s[e] == c,
        forall|q: int| i <= q < e ==> s[q] != c,
    ensures
        find_char(s, i, c) == Some(e),
    decreases e - i,
{
    if i < e {
        lemma_find_char_at(s, i + 1, e, c);
    }
}

/// Text between `**` and `**` (holding no `*`) is bold, and its children
/// are exactly the inline nodes of that text.
pub proof fn law_bold(x: Seq<char>)
    requires
        forall|k: int| 0 <= k < x.len() ==> x[k] != '*',
    ensures
        inline_model(seq!['*', '*'] + x + seq!['*', '*']) == seq![InlineModel::Bold(inline_model(x))],
{
    let s = seq!['*', '*'] + x + seq!['*', '*'];
    let e: int = x.len() as int + 2;
    assert forall|k: int| 2 <= k < e implies s[k] != '*' by {
        assert(s[k] == x[k - 2]);
    }
    lemma_find_double_at(s, 2, e, '*');
    assert(bold_at(s, 0));
    assert(tok_at(s, 0) == Tok::Bold(e));
    assert(s.subrange(2, e) =~= x);
    assert(parse_from(s, e + 2) =~= Seq::<InlineModel>::empty());
    assert(parse_from(s, 0) =~= seq![InlineModel::Bold(inline_model(x))]);
}

/// Non-empty text between single `*` (holding no `*`) is italic, and its
/// children are exactly the inline nodes of that text.
pub proof fn law_italic(x: Seq<char>)
    requires
        x.len() > 0,
        forall|k: int| 0 <= k < x.len() ==> x[k] != '*',
    ensures
        inline_model(seq!['*'] + x + seq!['*']) == seq![InlineModel::Italic(inline_model(x))],
{
    let s = seq!['*'] + x + seq!['*'];
    let e: int = x.len() as int + 1;
    assert forall|k: int| 1 <= k < e implies s[k] != '*' by {
        assert(s[k] == x[k - 1]);
    }
    assert(s[1] == x[0]);
    lemma_find_char_at(s, 1, e, '*');
    assert(!bold_at(s, 0));
    assert(tok_at(s, 0) == Tok::Italic(e));
    assert(s.subrange(1, e) =~= x);
    assert(parse_from(s, e + 1) =~= Seq::<InlineModel>::empty());
    assert(parse_from(s, 0) =~= seq![InlineModel::Italic(inline_model(x))]);
}

/// Non-empty text between `$` and `$` (holding no `$`) is math, and the
/// math is exactly that text.
pub proof fn law_math(x: Seq<char>)
    requires
        forall|k: int| 0 <= k < x.len() ==> x[k] != '$',
    ensures
        inline_model(seq!['$'] + x + seq!['$']) == seq![InlineModel::Math(x)],
{
    let s = seq!['$'] + x + seq!['$'];
    let e: int = x.len() as int + 1;
    assert forall|k: int| 1 <= k < e implies s[k] != '$' by {
        assert(s[k] == x[k - 1]);
    }
    lemma_find_char_at(s, 1, e, '$');
    assert(!bold_at(s, 0));
    assert(tok_at(s, 0) == Tok::Math(e));
    assert(s.subrange(1, e) =~= x);
    assert(parse_from(s, e + 1) =~= Seq::<InlineModel>::empty());
    assert(parse_from(s, 0) =~= seq![InlineModel::Math(x)]);
}

/// `[a](u)`, with no `]` in `a` and no `)` in `u`, is one link whose text
/// is the inline nodes of `a` and whose URL is `u`.
pub proof fn law_link(a: Seq<char>, u: Seq<char>)
    requires
        forall|k: int| 0 <= k < a.len() ==> a[k] != ']',
        forall|k: int| 0 <= k < u.len() ==> u[k] != ')',
    ensures
        inline_model(seq!['['] + a + seq![']', '('] + u + seq![')']) == seq![
            InlineModel::Link { text: inline_model(a), url: u, title: None },
        ],
{
    let s = seq!['['] + a + seq![']', '('] + u + seq![')'];
    let j: int = a.len() as int + 1;
    let k: int = j + 2 + u.len() as int;
    assert forall|q: int| 1 <= q < j implies s[q] != ']' by {
        assert(s[q] == a[q - 1]);
    }
    assert forall|q: int| j + 2 <= q < k implies s[q] != ')' by {
        assert(s[q] == u[q - j - 2]);
    }
    lemma_find_char_at(s, 1, j, ']');
    lemma_find_char_at(s, j + 2, k, ')');
    assert(link_at(s, 1) == Some((j, k)));
    assert(!bold_at(s, 0));
    assert(tok_at(s, 0) == Tok::Link(j, k));
    assert(s.subrange(1, j) =~= a);
    assert(s.subrange(j + 2, k) =~= u);
    assert(parse_from(s, k + 1) =~= Seq::<InlineModel>::empty());
    assert(parse_from(s, 0) =~= seq![InlineModel::Link { text: inline_model(a), url: u, title: None }]);
}

} // verus!

verus! {

/// `![a](u)`, with no `]` in `a` and no `)` in `u`, is one image whose alt
/// text is `a` and whose URL is `u`.
pub proof fn law_image(a: Seq<char>, u: Seq<char>)
    requires
        forall|k: int| 0 <= k < a.len() ==> a[k] != ']',
        forall|k: int| 0 <= k < u.len() ==> u[k] != ')',
    ensures
        inline_model(seq!['!', '['] + a + seq![']', '('] + u + seq![')']) == seq![
            InlineModel::Image { alt: a, url: u, title: None },
        ],
{
    let s = seq!['!', '['] + a + seq![']', '('] + u + seq![')'];
    let j: int = a.len() as int + 2;
    let k: int = j + 2 + u.len() as int;
    assert forall|q: int| 2 <= q < j implies s[q] != ']' by {
        assert(s[q] == a[q - 2]);
    }
    assert forall|q: int| j + 2 <= q < k implies s[q] != ')' by {
        assert(s[q] == u[q - j - 2]);
    }
    lemma_find_char_at(s, 2, j, ']');
    lemma_find_char_at(s, j + 2, k, ')');
    assert(link_at(s, 2) == Some((j, k)));
    assert(!bold_at(s, 0));
    assert(tok_at(s, 0) == Tok::Image(j, k));
    assert(s.subrange(2, j) =~= a);
    assert(s.subrange(j + 2, k) =~= u);
    assert(parse_from(s, k + 1) =~= Seq::<InlineModel>::empty());
    assert(parse_from(s, 0) =~= seq![InlineModel::Image { alt: a, url: u, title: None }]);
}

/// `[^x]`, with no `]` in `x`, is one footnote reference to the label `x`.
pub proof fn law_footnote_ref(x: Seq<char>)
    requires
        forall|k: int| 0 <= k < x.len() ==> x[k] != ']',
    ensures
        inline_model(seq!['[', '^'] + x + seq![']']) == seq![InlineModel::FootnoteRef(x)],
{
    let s = seq!['[', '^'] + x + seq![']'];
    let e: int = x.len() as int + 2;
    assert forall|q: int| 2 <= q < e implies s[q] != ']' by {
        assert(s[q] == x[q - 2]);
    }
    assert(s[1] != ']');
    lemma_find_char_at(s, 1, e, ']');
    lemma_find_char_at(s, 2, e, ']');
    assert(link_at(s, 1) is None);
    assert(!bold_at(s, 0));
    assert(find_char(s, 1, '$') is None || s[0] != '$');
    assert(tok_at(s, 0) == Tok::Foot(e));
    assert(s.subrange(2, e) =~= x);
    assert(parse_from(s, e + 1) =~= Seq::<InlineModel>::empty());
    assert(parse_from(s, 0) =~= seq![InlineModel::FootnoteRef(x)]);
}

proof fn lemma_find_ticks_one(s: Seq<char>, i: int, e: int)
    requires
        0 <= i <= e < s.len(),
        s[e] == '`',
        forall|q: int| i <= q < e ==> s[q] != '`',
    ensures
        find_ticks(s, i, 1) == Some(e),
    decreases e - i,
{
    if i < e {
        assert(!all_ticks(s, i, 1)) by {
            assert(s[i] != '`');
        }
        lemma_find_ticks_one(s, i + 1, e);
    } else {
        assert(all_ticks(s, i, 1));
    }
}

/// Non-empty text between single backticks (holding no backtick) is a code
/// span whose code is exactly that text.
pub proof fn law_code_span(x: Seq<char>)
    requires
        x.len() > 0,
        forall|k: int| 0 <= k < x.len() ==> x[k] != '`',
    ensures
        inline_model(seq!['`'] + x + seq!['`']) == seq![InlineModel::Code(x)],
{
    let s = seq!['`'] + x + seq!['`'];
    let e: int = x.len() as int + 1;
    assert(s[1] == x[0]);
    assert(tick_run(s, 1) == 0);
    assert(tick_run(s, 0) == 1);
    assert forall|q: int| 1 <= q < e implies s[q] != '`' by {
        assert(s[q] == x[q - 1]);
    }
    lemma_find_ticks_one(s, 1, e);
    assert(!bold_at(s, 0));
    assert(tok_at(s, 0) == Tok::Code(1, e));
    assert(s.subrange(1, e) =~= x);
    assert(parse_from(s, e + 1) =~= Seq::<InlineModel>::empty());
    assert(parse_from(s, 0) =~= seq![InlineModel::Code(x)]);
}

} // verus!
