//! The plain text of inline Markdown, as the preview shows it where no
//! styling applies (an image's alt text, a table cell).
use vstd::prelude::*;
use crate::markdown::ast::{lemma_children_models, lemma_link_model, models, Inline, InlineModel};
use crate::text::{chars_of, push_all, string_from_chars};

verus! {

/// The plain text of one inline node: its text, the text of its children,
/// a link's text, an image's alt text, `[^label]` for a footnote
/// reference, a newline for a hard break and a space for a soft one.
pub open spec fn inline_text(i: InlineModel) -> Seq<char>
    decreases i, 0nat,
{
    match i {
        InlineModel::Text(t) => t,
        InlineModel::Bold(c) => inlines_text(c),
        InlineModel::Italic(c) => inlines_text(c),
        InlineModel::Strikethrough(c) => inlines_text(c),
        InlineModel::Code(t) => t,
        InlineModel::Link { text, .. } => inlines_text(text),
        InlineModel::Image { alt, .. } => alt,
        InlineModel::Math(t) => t,
        InlineModel::FootnoteRef(l) => seq!['[', '^'] + l + seq![']'],
        InlineModel::HtmlTag(t) => t,
        InlineModel::HardBreak => seq!['\n'],
        InlineModel::SoftBreak => seq![' '],
    }
}

/// The plain text of a list of inline nodes, one after the other.
pub open spec fn inlines_text(v: Seq<InlineModel>) -> Seq<char>
    decreases v, 1nat,
{
    if v.len() == 0 {
        seq![]
    } else {
        inlines_text(v.drop_last()) + inline_text(v.last())
    }
}

/// The plain text of one inline node (see [`inline_text`]).
fn node_text(x: &Inline) -> (r: String)
    ensures
        r@ == inline_text(x.view()),
    decreases x, 0nat,
{
    match x {
        Inline::Text(t) => t.clone(),
        Inline::Bold(c) => {
            proof {
                lemma_children_models(*c);
            }
            inline_to_string(c.as_slice())
        },
        Inline::Italic(c) => {
            proof {
                lemma_children_models(*c);
            }
            inline_to_string(c.as_slice())
        },
        Inline::Strikethrough(c) => {
            proof {
                lemma_children_models(*c);
            }
            inline_to_string(c.as_slice())
        },
        Inline::Code(t) => t.clone(),
        Inline::Link { text, url, title } => {
            proof {
                lemma_link_model(*text, *url, *title);
            }
            inline_to_string(text.as_slice())
        },
        Inline::Image { alt, .. } => alt.clone(),
        Inline::Math(t) => t.clone(),
        Inline::FootnoteRef(l) => {
            let mut v: Vec<char> = vec!['[', '^'];
            push_all(&mut v, chars_of(l.as_str()).as_slice());
            v.push(']');
            proof {
                assert(v@ =~= seq!['[', '^'] + l@ + seq![']']);
            }
            string_from_chars(v.as_slice())
        },
        Inline::HtmlTag(t) => t.clone(),
        Inline::HardBreak => {
            let v = vec!['\n'];
            proof {
                assert(v@ =~= seq!['\n']);
            }
            string_from_chars(v.as_slice())
        },
        Inline::SoftBreak => {
            let v = vec![' '];
            proof {
                assert(v@ =~= seq![' ']);
            }
            string_from_chars(v.as_slice())
        },
    }
}

/// The plain text of inline nodes (see [`inlines_text`]).
pub fn inline_to_string(inlines: &[Inline]) -> (r: String)
    ensures
        r@ == inlines_text(models(inlines@)),
    decreases inlines@, 1nat,
{
    let mut out: Vec<char> = Vec::new();
    let mut k: usize = 0;
    while k < inlines.len()
        invariant
            k <= inlines@.len(),
            out@ == inlines_text(models(inlines@.take(k as int))),
        decreases inlines@.len() - k,
    {
        proof {
            assert(decreases_to!(inlines@ => inlines@[k as int]));
        }
        let t = node_text(&inlines[k]);
        push_all(&mut out, chars_of(t.as_str()).as_slice());
        proof {
            let m = models(inlines@.take(k + 1));
            assert(m.drop_last() =~= models(inlines@.take(k as int)));
            assert(m.last() == inlines@[k as int].view());
        }
        k += 1;
    }
    proof {
        assert(inlines@.take(k as int) =~= inlines@);
    }
    string_from_chars(out.as_slice())
}

} // verus!
