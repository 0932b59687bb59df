//! Code highlighting: which grammar a fence's info string names, and the
//! colors of highlight classes.
use vstd::prelude::*;
use std::ops::Range;
use crate::text::{chars_of, trim, trim_chars};

pub mod theme;

verus! {

/// A highlighted range of code and the index of its highlight class.
#[derive(Debug)]
pub struct StyledRange {
    pub range: Range<usize>,
    pub highlight_index: usize,
}

/// ASCII letters lowered; every other character unchanged.
pub open spec fn ascii_lower(s: Seq<char>) -> Seq<char> {
    Seq::new(
        s.len(),
        |k: int|
            if 'A' <= s[k] <= 'Z' {
                ((s[k] as u32) + 32) as char
            } else {
                s[k]
            },
    )
}

/// The language key an info string names, compared without regard to case.
pub open spec fn language_of(info: Seq<char>) -> Option<Seq<char>> {
    let l = ascii_lower(trim(info));
    if l == "rust"@ || l == "rs"@ {
        Some("rust"@)
    } else if l == "javascript"@ || l == "js"@ || l == "typescript"@ || l == "ts"@ {
        Some("javascript"@)
    } else if l == "python"@ || l == "py"@ {
        Some("python"@)
    } else if l == "go"@ || l == "golang"@ {
        Some("go"@)
    } else if l == "c"@ || l == "h"@ {
        Some("c"@)
    } else {
        None
    }
}

fn lower_ascii(c: char) -> (r: char)
    ensures
        r == if 'A' <= c <= 'Z' {
            ((c as u32) + 32) as char
        } else {
            c
        },
{
    if 'A' <= c && c <= 'Z' {
        ((c as u32) + 32) as u8 as char
    } else {
        c
    }
}

fn chars_eq(a: &[char], b: &str) -> (r: bool)
    ensures
        r == (a@ == b@),
{
    let bc = chars_of(b);
    if a.len() != bc.len() {
        return false;
    }
    let mut k: usize = 0;
    while k < a.len()
        invariant
            k <= a@.len(),
            a@.len() == bc@.len(),
            bc@ == b@,
            forall|q: int| 0 <= q < k ==> a@[q] == bc@[q],
        decreases a@.len() - k,
    {
        if a[k] != bc[k] {
            return false;
        }
        k += 1;
    }
    proof {
        assert(a@ =~= b@);
    }
    true
}

/// The language key of a fence info string ("rust", "js", "TypeScript",
/// ...), compared without regard to case after trimming; `None` for an
/// unknown language. (Unicode lowercasing and ASCII lowercasing agree on
/// whether a text names one of these all-ASCII keys.)
pub fn resolve_language(info: &str) -> (r: Option<&'static str>)
    ensures
        match r {
            Some(s) => language_of(info@) == Some(s@),
            None => language_of(info@) is None,
        },
{
    let t = trim_chars(chars_of(info).as_slice());
    let mut l: Vec<char> = Vec::new();
    let mut k: usize = 0;
    while k < t.len()
        invariant
            k <= t@.len(),
            l@ == ascii_lower(t@).take(k as int),
        decreases t@.len() - k,
    {
        l.push(lower_ascii(t[k]));
        k += 1;
        proof {
            assert(l@ =~= ascii_lower(t@).take(k as int));
        }
    }
    proof {
        assert(ascii_lower(t@).take(t@.len() as int) =~= ascii_lower(t@));
    }
    let l = l.as_slice();
    if chars_eq(l, "rust") || chars_eq(l, "rs") {
        Some("rust")
    } else if chars_eq(l, "javascript") || chars_eq(l, "js") || chars_eq(l, "typescript")
        || chars_eq(l, "ts") {
        Some("javascript")
    } else if chars_eq(l, "python") || chars_eq(l, "py") {
        Some("python")
    } else if chars_eq(l, "go") || chars_eq(l, "golang") {
        Some("go")
    } else if chars_eq(l, "c") || chars_eq(l, "h") {
        Some("c")
    } else {
        None
    }
}

} // verus!
