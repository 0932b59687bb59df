//! A note file's parts: the YAML header between `---` lines, the body, and
//! the title that a body's first heading gives.
use vstd::prelude::*;
use crate::text::{
    chars_of, lines, push_all, split_lines_chars, string_from_chars, trim, trim_chars, trim_start,
    trim_start_chars,
};

verus! {

/// The title of a trimmed line: what follows `# ` or `## `, trimmed.
pub open spec fn heading_title(t: Seq<char>) -> Option<Seq<char>> {
    if t.len() >= 2 && t[0] == '#' && t[1] == ' ' {
        Some(trim(t.skip(2)))
    } else if t.len() >= 3 && t[0] == '#' && t[1] == '#' && t[2] == ' ' {
        Some(trim(t.skip(3)))
    } else {
        None
    }
}

/// The title of the first line from `i` on that is a level one or two heading.
pub open spec fn title_from(ls: Seq<Seq<char>>, i: int) -> Option<Seq<char>>
    decreases ls.len() - i,
{
    if i < 0 || i >= ls.len() {
        None
    } else {
        match heading_title(trim(ls[i])) {
            Some(t) => Some(t),
            None => title_from(ls, i + 1),
        }
    }
}

/// The text of the first `# ` or `## ` heading of a note body, trimmed.
pub fn extract_title_from_body(body: &str) -> (r: Option<String>)
    ensures
        match r {
            Some(t) => title_from(lines(body@), 0) == Some(t@),
            None => title_from(lines(body@), 0) is None,
        },
{
    let chars = chars_of(body);
    let ls = split_lines_chars(chars.as_slice());
    let ghost v = lines(body@);
    let mut i: usize = 0;
    while i < ls.len()
        invariant
            i <= ls@.len(),
            ls@.len() == v.len(),
            forall|k: int| 0 <= k < v.len() ==> #[trigger] ls@[k]@ == v[k],
            v == lines(body@),
            title_from(v, i as int) == title_from(v, 0),
        decreases ls@.len() - i,
    {
        let t = trim_chars(ls[i].as_slice());
        proof {
            assert(ls@[i as int]@ == v[i as int]);
        }
        if t.len() >= 2 && t[0] == '#' && t[1] == ' ' {
            let rest = trim_chars(vstd::slice::slice_subrange(t.as_slice(), 2, t.len()));
            proof {
                assert(t@.subrange(2, t@.len() as int) =~= t@.skip(2));
            }
            return Some(string_from_chars(rest.as_slice()));
        }
        if t.len() >= 3 && t[0] == '#' && t[1] == '#' && t[2] == ' ' {
            let rest = trim_chars(vstd::slice::slice_subrange(t.as_slice(), 3, t.len()));
            proof {
                assert(t@.subrange(3, t@.len() as int) =~= t@.skip(3));
            }
            return Some(string_from_chars(rest.as_slice()));
        }
        i += 1;
    }
    None
}


/// Three dashes start at `k`.
pub open spec fn dashes_at(s: Seq<char>, k: int) -> bool {
    0 <= k && k + 3 <= s.len() && s[k] == '-' && s[k + 1] == '-' && s[k + 2] == '-'
}

/// Where the first three dashes from `i` on start, if anywhere.
pub open spec fn first_dashes(s: Seq<char>, i: int) -> Option<int>
    decreases s.len() - i,
{
    if i < 0 || i + 3 > s.len() {
        None
    } else if dashes_at(s, i) {
        Some(i)
    } else {
        first_dashes(s, i + 1)
    }
}

/// The header and body of a note file: after leading whitespace, the file
/// opens with `---`; the header runs to the next `---`, and the body is
/// what follows it, leading whitespace removed. `None` when the file does
/// not open with `---` or the header is not closed.
pub open spec fn frontmatter_parts(content: Seq<char>) -> Option<(Seq<char>, Seq<char>)> {
    let t = trim_start(content);
    if !dashes_at(t, 0) {
        None
    } else {
        let rest = t.skip(3);
        match first_dashes(rest, 0) {
            Some(k) => Some((rest.take(k), trim_start(rest.skip(k + 3)))),
            None => None,
        }
    }
}

/// Splits a note file into its YAML header and its body (see
/// [`frontmatter_parts`]).
pub fn split_frontmatter(content: &str) -> (r: Option<(String, String)>)
    ensures
        match r {
            Some((y, b)) => frontmatter_parts(content@) == Some((y@, b@)),
            None => frontmatter_parts(content@) is None,
        },
{
    let chars = chars_of(content);
    let t = trim_start_chars(chars.as_slice());
    let n = t.len();
    if !(n >= 3 && t[0] == '-' && t[1] == '-' && t[2] == '-') {
        return None;
    }
    let rest = vstd::slice::slice_subrange(t.as_slice(), 3, n);
    let m = rest.len();
    let ghost rs = rest@;
    proof {
        assert(t@.skip(3) =~= rs);
    }
    if m < 3 {
        return None;
    }
    let mut k: usize = 0;
    while k <= m - 3
        invariant
            m == rs.len(),
            m >= 3,
            rs == rest@,
            rs == t@.skip(3),
            t@ == trim_start(content@),
            dashes_at(t@, 0),
            k <= m - 2,
            first_dashes(rs, 0) == first_dashes(rs, k as int),
        decreases m - k,
    {
        if rest[k] == '-' && rest[k + 1] == '-' && rest[k + 2] == '-' {
            let yaml = string_from_chars(vstd::slice::slice_subrange(rest, 0, k));
            let after = vstd::slice::slice_subrange(rest, k + 3, m);
            let body = string_from_chars(trim_start_chars(after).as_slice());
            proof {
                assert(rest@.subrange(0, k as int) =~= rs.take(k as int));
                assert(after@ =~= rs.skip(k + 3));
            }
            return Some((yaml, body));
        }
        k += 1;
    }
    None
}

/// A note file written out: the YAML header between `---` lines, then the
/// body.
pub open spec fn note_file_text(yaml: Seq<char>, body: Seq<char>) -> Seq<char> {
    seq!['-', '-', '-', '\n'] + yaml + seq!['-', '-', '-', '\n'] + body
}

/// Writes a note file from its YAML header (ending with a newline, as a
/// YAML writer leaves it) and its body (see [`note_file_text`]).
pub fn format_note_text(yaml: &str, body: &str) -> (r: String)
    ensures
        r@ == note_file_text(yaml@, body@),
{
    let mut v: Vec<char> = Vec::new();
    let dashes = vec!['-', '-', '-', '\n'];
    push_all(&mut v, dashes.as_slice());
    push_all(&mut v, chars_of(yaml).as_slice());
    push_all(&mut v, dashes.as_slice());
    push_all(&mut v, chars_of(body).as_slice());
    proof {
        assert(dashes@ =~= seq!['-', '-', '-', '\n']);
    }
    string_from_chars(v.as_slice())
}


/// Skipping whitespace from `i + 1` on in `seq![c] + s` is skipping it
/// from `i` on in `s`.
proof fn lemma_skip_ws_shift(c: char, s: Seq<char>, i: int)
    requires
        0 <= i <= s.len(),
    ensures
        crate::text::skip_ws_from(seq![c] + s, i + 1) == crate::text::skip_ws_from(s, i) + 1,
    decreases s.len() - i,
{
    let x = seq![c] + s;
    if i < s.len() {
        assert(x[i + 1] == s[i]);
        if crate::text::is_ws(s[i]) {
            lemma_skip_ws_shift(c, s, i + 1);
        }
    }
}

/// The only three dashes in `seq!['\n'] + yaml + "---\n" + body` before
/// the body are the closing ones.
proof fn lemma_closing_dashes(rest: Seq<char>, yaml: Seq<char>, i: int)
    requires
        rest.take(yaml.len() as int + 5) == seq!['\n'] + yaml + seq!['-', '-', '-', '\n'],
        rest.len() >= yaml.len() + 5,
        yaml.len() == 0 || yaml.last() == '\n',
        forall|k: int| !dashes_at(yaml, k),
        0 <= i <= yaml.len() + 1,
    ensures
        first_dashes(rest, i) == Some(yaml.len() as int + 1),
    decreases yaml.len() + 1 - i,
{
    let pre = seq!['\n'] + yaml + seq!['-', '-', '-', '\n'];
    let n = yaml.len() as int;
    assert forall|q: int| 0 <= q < n + 5 implies rest[q] == pre[q] by {
        assert(rest.take(n + 5)[q] == rest[q]);
    }
    if i == n + 1 {
        assert(rest[n + 1] == '-' && rest[n + 2] == '-' && rest[n + 3] == '-');
    } else {
        assert(!dashes_at(rest, i)) by {
            if i == 0 {
                assert(rest[0] == '\n');
            } else if i + 3 <= n + 1 {
                assert(rest[i] == yaml[i - 1]);
                assert(rest[i + 1] == yaml[i]);
                assert(rest[i + 2] == yaml[i + 1]);
                assert(!dashes_at(yaml, i - 1));
            } else {
                assert(yaml.len() > 0);
                assert(rest[n] == yaml[n - 1]);
                assert(yaml[n - 1] == '\n');
                assert(i <= n && n <= i + 2);
            }
        }
        lemma_closing_dashes(rest, yaml, i + 1);
    }
}

/// Reading a written note file gives back its header (after the newline
/// that follows the opening dashes) and its body, leading whitespace
/// removed, when the header holds no three dashes in a row and is empty
/// or ends with a newline.
pub proof fn law_note_file_round_trip(yaml: Seq<char>, body: Seq<char>)
    requires
        yaml.len() == 0 || yaml.last() == '\n',
        forall|k: int| !dashes_at(yaml, k),
    ensures
        frontmatter_parts(note_file_text(yaml, body)) == Some(
            (seq!['\n'] + yaml, trim_start(body)),
        ),
{
    let f = note_file_text(yaml, body);
    let n = yaml.len() as int;
    assert(!crate::text::is_ws('-'));
    assert(crate::text::skip_ws_from(f, 0) == 0);
    assert(trim_start(f) =~= f);
    let rest = f.skip(3);
    assert(rest =~= seq!['\n'] + yaml + seq!['-', '-', '-', '\n'] + body);
    assert(rest.take(n + 5) =~= seq!['\n'] + yaml + seq!['-', '-', '-', '\n']);
    lemma_closing_dashes(rest, yaml, 0);
    assert(rest.take(n + 1) =~= seq!['\n'] + yaml);
    let after = rest.skip(n + 4);
    assert(after =~= seq!['\n'] + body);
    assert(crate::text::is_ws('\n'));
    lemma_skip_ws_shift('\n', body, 0);
    assert(crate::text::skip_ws_from(after, 0) == crate::text::skip_ws_from(after, 1));
    let j = crate::text::skip_ws_from(body, 0);
    crate::text::lemma_skip_ws_bounds(body, 0);
    assert(crate::text::skip_ws_from(after, 0) == j + 1);
    assert(after.skip(j + 1) =~= body.skip(j));
    assert(trim_start(after) =~= trim_start(body));
}

} // verus!
