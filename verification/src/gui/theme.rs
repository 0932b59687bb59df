//! Markdown colors of a UI theme, as written in its theme file.
use vstd::prelude::*;

verus! {

/// One themed color.
#[derive(Debug, Clone)]
pub struct MarkdownColorEntry {
    pub color: String,
}

/// The colors a theme gives to each kind of Markdown element; empty when
/// the theme does not set one.
#[derive(Debug, Clone)]
pub struct MarkdownColors {
    pub heading: MarkdownColorEntry,
    pub heading_marker: MarkdownColorEntry,
    pub list_marker: MarkdownColorEntry,
    pub link: MarkdownColorEntry,
    pub image_marker: MarkdownColorEntry,
    pub quote: MarkdownColorEntry,
    pub quote_border: MarkdownColorEntry,
    pub code_bg: String,
    pub code_fg: String,
    pub math_fg: String,
    pub math_bg: String,
    pub strikethrough: MarkdownColorEntry,
    pub bold: MarkdownColorEntry,
    pub bold_marker: MarkdownColorEntry,
    pub italic: MarkdownColorEntry,
    pub italic_marker: MarkdownColorEntry,
    pub tag: MarkdownColorEntry,
    pub code_marker: MarkdownColorEntry,
    pub math_marker: MarkdownColorEntry,
}

fn empty_entry() -> (r: MarkdownColorEntry)
    ensures
        r.color@.len() == 0,
{
    MarkdownColorEntry { color: String::new() }
}

impl MarkdownColors {
    /// Every color is unset (empty).
    pub open spec fn all_unset(self) -> bool {
        &&& self.heading.color@.len() == 0
        &&& self.heading_marker.color@.len() == 0
        &&& self.list_marker.color@.len() == 0
        &&& self.link.color@.len() == 0
        &&& self.image_marker.color@.len() == 0
        &&& self.quote.color@.len() == 0
        &&& self.quote_border.color@.len() == 0
        &&& self.code_bg@.len() == 0
        &&& self.code_fg@.len() == 0
        &&& self.math_fg@.len() == 0
        &&& self.math_bg@.len() == 0
        &&& self.strikethrough.color@.len() == 0
        &&& self.bold.color@.len() == 0
        &&& self.bold_marker.color@.len() == 0
        &&& self.italic.color@.len() == 0
        &&& self.italic_marker.color@.len() == 0
        &&& self.tag.color@.len() == 0
        &&& self.code_marker.color@.len() == 0
        &&& self.math_marker.color@.len() == 0
    }
}

impl Default for MarkdownColors {
    fn default() -> (r: Self)
        ensures
            r.all_unset(),
    {
        MarkdownColors {
            heading: empty_entry(),
            heading_marker: empty_entry(),
            list_marker: empty_entry(),
            link: empty_entry(),
            image_marker: empty_entry(),
            quote: empty_entry(),
            quote_border: empty_entry(),
            code_bg: String::new(),
            code_fg: String::new(),
            math_fg: String::new(),
            math_bg: String::new(),
            strikethrough: empty_entry(),
            bold: empty_entry(),
            bold_marker: empty_entry(),
            italic: empty_entry(),
            italic_marker: empty_entry(),
            tag: empty_entry(),
            code_marker: empty_entry(),
            math_marker: empty_entry(),
        }
    }
}

} // verus!
