//! Colors of the editor and the user interface, with their defaults.
use vstd::prelude::*;
use crate::markdown::block::run_length;
use crate::num::{all_digits, digit_value, digits_value, parse_u32_radix, u32_of, unsigned_digits};
use crate::text::chars_of;
use crate::utf8len::{char_index_of_byte, cidx, is_boundary, lemma_boundary_split};

verus! {

/// Colors of the user interface and of the editor.
#[derive(Debug, Clone)]
pub struct ThemeConfig {
    pub ui: UiColors,
    pub editor: EditorColors,
}

/// Colors of the user interface, as `#RRGGBB`.
#[derive(Debug, Clone)]
pub struct UiColors {
    pub bg: String,
    pub sidebar_bg: String,
    pub border: String,
    pub text: String,
    pub text_dim: String,
}

/// Colors of the editor's Markdown and code highlighting, as `#RRGGBB`,
/// and the weight of bold text.
#[derive(Debug, Clone)]
pub struct EditorColors {
    pub heading_fg: String,
    pub heading_marker: String,
    pub list_marker: String,
    pub code_bg: String,
    pub code_fg: String,
    pub link_fg: String,
    pub image_marker: String,
    pub quote_fg: String,
    pub quote_border: String,
    pub math_fg: String,
    pub strikethrough_fg: String,
    pub bold_fg: String,
    pub italic_fg: String,
    pub bold_weight: u32,
    pub text_dim: String,
    pub code_keyword: String,
    pub code_function: String,
    pub code_string: String,
    pub code_number: String,
    pub code_comment: String,
    pub code_type: String,
    pub code_constant: String,
    pub code_operator: String,
    pub code_property: String,
    pub code_tag: String,
    pub code_punctuation: String,
    pub code_attribute: String,
}

pub fn default_bg() -> (r: String)
    ensures
        r@ == "#1e1e2e"@,
{
    "#1e1e2e".to_owned()
}

pub fn default_sidebar_bg() -> (r: String)
    ensures
        r@ == "#181825"@,
{
    "#181825".to_owned()
}

pub fn default_border() -> (r: String)
    ensures
        r@ == "#313244"@,
{
    "#313244".to_owned()
}

pub fn default_text() -> (r: String)
    ensures
        r@ == "#cdd6f4"@,
{
    "#cdd6f4".to_owned()
}

pub fn default_text_dim() -> (r: String)
    ensures
        r@ == "#a6adc8"@,
{
    "#a6adc8".to_owned()
}

pub fn default_heading_fg() -> (r: String)
    ensures
        r@ == "#89b4fa"@,
{
    "#89b4fa".to_owned()
}

pub fn default_heading_marker() -> (r: String)
    ensures
        r@ == "#89b4fa"@,
{
    "#89b4fa".to_owned()
}

pub fn default_list_marker() -> (r: String)
    ensures
        r@ == "#f9e2af"@,
{
    "#f9e2af".to_owned()
}

pub fn default_code_bg() -> (r: String)
    ensures
        r@ == "#313244"@,
{
    "#313244".to_owned()
}

pub fn default_code_fg() -> (r: String)
    ensures
        r@ == "#a6e3a1"@,
{
    "#a6e3a1".to_owned()
}

pub fn default_link_fg() -> (r: String)
    ensures
        r@ == "#89b4fa"@,
{
    "#89b4fa".to_owned()
}

pub fn default_image_marker() -> (r: String)
    ensures
        r@ == "#7f849c"@,
{
    "#7f849c".to_owned()
}

pub fn default_quote_fg() -> (r: String)
    ensures
        r@ == "#9399b2"@,
{
    "#9399b2".to_owned()
}

pub fn default_quote_border() -> (r: String)
    ensures
        r@ == "#585b70"@,
{
    "#585b70".to_owned()
}

pub fn default_math_fg() -> (r: String)
    ensures
        r@ == "#ffffff"@,
{
    "#ffffff".to_owned()
}

pub fn default_strikethrough_fg() -> (r: String)
    ensures
        r@ == "#7f849c"@,
{
    "#7f849c".to_owned()
}

pub fn default_bold_fg() -> (r: String)
    ensures
        r@ == "#f9e2af"@,
{
    "#f9e2af".to_owned()
}

pub fn default_italic_fg() -> (r: String)
    ensures
        r@ == "#f5c2e7"@,
{
    "#f5c2e7".to_owned()
}

pub fn default_bold_weight() -> (r: u32)
    ensures
        r == 700,
{
    700
}

pub fn default_code_keyword() -> (r: String)
    ensures
        r@ == "#cba6f7"@,
{
    "#cba6f7".to_owned()
}

pub fn default_code_function() -> (r: String)
    ensures
        r@ == "#89b4fa"@,
{
    "#89b4fa".to_owned()
}

pub fn default_code_string() -> (r: String)
    ensures
        r@ == "#a6e3a1"@,
{
    "#a6e3a1".to_owned()
}

pub fn default_code_number() -> (r: String)
    ensures
        r@ == "#fab387"@,
{
    "#fab387".to_owned()
}

pub fn default_code_comment() -> (r: String)
    ensures
        r@ == "#6c7086"@,
{
    "#6c7086".to_owned()
}

pub fn default_code_type() -> (r: String)
    ensures
        r@ == "#f9e2af"@,
{
    "#f9e2af".to_owned()
}

pub fn default_code_constant() -> (r: String)
    ensures
        r@ == "#fab387"@,
{
    "#fab387".to_owned()
}

pub fn default_code_operator() -> (r: String)
    ensures
        r@ == "#89dceb"@,
{
    "#89dceb".to_owned()
}

pub fn default_code_property() -> (r: String)
    ensures
        r@ == "#89b4fa"@,
{
    "#89b4fa".to_owned()
}

pub fn default_code_tag() -> (r: String)
    ensures
        r@ == "#f38ba8"@,
{
    "#f38ba8".to_owned()
}

pub fn default_code_punctuation() -> (r: String)
    ensures
        r@ == "#6c7086"@,
{
    "#6c7086".to_owned()
}

pub fn default_code_attribute() -> (r: String)
    ensures
        r@ == "#f9e2af"@,
{
    "#f9e2af".to_owned()
}

impl Default for UiColors {
    fn default() -> (r: Self)
        ensures
            r.bg@ == "#1e1e2e"@,
            r.sidebar_bg@ == "#181825"@,
            r.border@ == "#313244"@,
            r.text@ == "#cdd6f4"@,
            r.text_dim@ == "#a6adc8"@,
    {
        UiColors {
            bg: default_bg(),
            sidebar_bg: default_sidebar_bg(),
            border: default_border(),
            text: default_text(),
            text_dim: default_text_dim(),
        }
    }
}

impl Default for EditorColors {
    fn default() -> (r: Self)
        ensures
            r.heading_fg@ == "#89b4fa"@,
            r.heading_marker@ == "#89b4fa"@,
            r.list_marker@ == "#f9e2af"@,
            r.code_bg@ == "#313244"@,
            r.code_fg@ == "#a6e3a1"@,
            r.link_fg@ == "#89b4fa"@,
            r.image_marker@ == "#7f849c"@,
            r.quote_fg@ == "#9399b2"@,
            r.quote_border@ == "#585b70"@,
            r.math_fg@ == "#ffffff"@,
            r.strikethrough_fg@ == "#7f849c"@,
            r.bold_fg@ == "#f9e2af"@,
            r.italic_fg@ == "#f5c2e7"@,
            r.bold_weight == 700,
            r.text_dim@ == "#a6adc8"@,
            r.code_keyword@ == "#cba6f7"@,
            r.code_function@ == "#89b4fa"@,
            r.code_string@ == "#a6e3a1"@,
            r.code_number@ == "#fab387"@,
            r.code_comment@ == "#6c7086"@,
            r.code_type@ == "#f9e2af"@,
            r.code_constant@ == "#fab387"@,
            r.code_operator@ == "#89dceb"@,
            r.code_property@ == "#89b4fa"@,
            r.code_tag@ == "#f38ba8"@,
            r.code_punctuation@ == "#6c7086"@,
            r.code_attribute@ == "#f9e2af"@,
    {
        EditorColors {
            heading_fg: default_heading_fg(),
            heading_marker: default_heading_marker(),
            list_marker: default_list_marker(),
            code_bg: default_code_bg(),
            code_fg: default_code_fg(),
            link_fg: default_link_fg(),
            image_marker: default_image_marker(),
            quote_fg: default_quote_fg(),
            quote_border: default_quote_border(),
            math_fg: default_math_fg(),
            strikethrough_fg: default_strikethrough_fg(),
            bold_fg: default_bold_fg(),
            italic_fg: default_italic_fg(),
            bold_weight: default_bold_weight(),
            text_dim: default_text_dim(),
            code_keyword: default_code_keyword(),
            code_function: default_code_function(),
            code_string: default_code_string(),
            code_number: default_code_number(),
            code_comment: default_code_comment(),
            code_type: default_code_type(),
            code_constant: default_code_constant(),
            code_operator: default_code_operator(),
            code_property: default_code_property(),
            code_tag: default_code_tag(),
            code_punctuation: default_code_punctuation(),
            code_attribute: default_code_attribute(),
        }
    }
}

impl ThemeConfig {
    /// `theme.toml` in this application's configuration directory.
    pub fn theme_path() -> (r: Option<String>)
        ensures
            r matches Some(p) ==> exists|d: Seq<char>| p@ == crate::config::config_file_in(d, "theme.toml"@),
    {
        crate::config::config_file("theme.toml")
    }
}

impl Default for ThemeConfig {
    fn default() -> (r: Self)
        ensures
            r.ui.bg@ == "#1e1e2e"@,
            r.editor.heading_fg@ == "#89b4fa"@,
            r.editor.bold_weight == 700,
    {
        ThemeConfig { ui: UiColors::default(), editor: EditorColors::default() }
    }
}

/// `u8::from_str_radix(s, 16).unwrap_or(0)`.
pub open spec fn hex_byte(s: Seq<char>) -> u8 {
    match u32_of(s, 16) {
        Some(v) => if v <= 255 {
            v as u8
        } else {
            0
        },
        None => 0,
    }
}

/// The text after the leading `#`s.
pub open spec fn hex_digits(hex: Seq<char>) -> Seq<char> {
    hex.skip(crate::markdown::block::run_len(hex, 0, '#') as int)
}

/// Bytes `a..b` of `h`, as characters.
pub open spec fn byte_range(h: Seq<char>, a: int, b: int) -> Seq<char> {
    h.subrange(cidx(h, a), cidx(h, b))
}

/// The color channels read from `#RRGGBB`, each 0 where its two bytes are
/// not a hexadecimal number.
pub open spec fn hex_color(hex: Seq<char>) -> (u8, u8, u8) {
    let h = hex_digits(hex);
    (hex_byte(byte_range(h, 0, 2)), hex_byte(byte_range(h, 2, 4)), hex_byte(byte_range(h, 4, 6)))
}

/// The text after the leading `#`s splits into characters at bytes 2, 4
/// and 6, so that its first three byte pairs can be read.
pub open spec fn hex_readable(hex: Seq<char>) -> bool {
    let h = hex_digits(hex);
    is_boundary(h, 2) && is_boundary(h, 4) && is_boundary(h, 6)
}

/// The base-16 value of the two digits at `i` and `i + 1`.
pub open spec fn hex_pair(h: Seq<char>, i: int) -> nat {
    16 * (digit_value(h[i], 16)->0) + digit_value(h[i + 1], 16)->0
}

proof fn lemma_hex_pair(d: Seq<char>)
    requires
        d.len() == 2,
        digit_value(d[0], 16) is Some,
        digit_value(d[1], 16) is Some,
    ensures
        0 <= hex_pair(d, 0) <= 255,
        hex_byte(d) == hex_pair(d, 0) as u8,
{
    assert(unsigned_digits(d) == d);
    assert(all_digits(d, 16));
    let d0 = d.drop_last();
    assert(d0.drop_last().len() == 0);
    assert(digits_value(d0.drop_last(), 16) == 0);
    assert(d0.last() == d[0]);
    assert(digits_value(d0, 16) == digit_value(d[0], 16)->0);
    assert(digits_value(d, 16) == (digit_value(d[0], 16)->0) * 16 + digit_value(d[1], 16)->0);
}

proof fn lemma_hex_channel_pair(hex: Seq<char>, i: int)
    requires
        hex.len() == 7,
        i == 0 || i == 2 || i == 4,
        forall|k: int| 1 <= k < 7 ==> (#[trigger] digit_value(hex[k], 16)) is Some,
        crate::rope_spec::ascii(hex.skip(1)),
    ensures
        hex_byte(byte_range(hex.skip(1), i, i + 2)) == hex_pair(hex, i + 1) as u8,
        0 <= hex_pair(hex, i + 1) <= 255,
{
    let h = hex.skip(1);
    crate::rope_spec::lemma_ascii_boundary(h, i);
    crate::rope_spec::lemma_ascii_boundary(h, i + 2);
    let d = byte_range(h, i, i + 2);
    assert(d =~= seq![hex[i + 1], hex[i + 2]]);
    assert(digit_value(hex[i + 1], 16) is Some);
    assert(digit_value(hex[i + 2], 16) is Some);
    lemma_hex_pair(d);
}

/// `#RRGGBB` written with six hexadecimal digits can be read, and reads as
/// the base-16 value of each of its three digit pairs.
pub proof fn law_hex_color_pairs(hex: Seq<char>)
    requires
        hex.len() == 7,
        hex[0] == '#',
        forall|k: int| 1 <= k < 7 ==> (#[trigger] digit_value(hex[k], 16)) is Some,
    ensures
        hex_readable(hex),
        hex_color(hex) == (
            hex_pair(hex, 1) as u8,
            hex_pair(hex, 3) as u8,
            hex_pair(hex, 5) as u8,
        ),
        0 <= hex_pair(hex, 1) <= 255,
        0 <= hex_pair(hex, 3) <= 255,
        0 <= hex_pair(hex, 5) <= 255,
{
    assert(digit_value(hex[1], 16) is Some);
    assert(crate::markdown::block::run_len(hex, 1, '#') == 0);
    let h = hex.skip(1);
    assert(hex_digits(hex) == h);
    assert(crate::rope_spec::ascii(h)) by {
        assert forall|k: int| 0 <= k < h.len() implies (#[trigger] h[k] as u32) < 0x80 by {
            assert(digit_value(hex[k + 1], 16) is Some);
        }
    }
    crate::rope_spec::lemma_ascii_boundary(h, 0);
    crate::rope_spec::lemma_ascii_boundary(h, 2);
    crate::rope_spec::lemma_ascii_boundary(h, 4);
    crate::rope_spec::lemma_ascii_boundary(h, 6);
    lemma_hex_channel_pair(hex, 0);
    lemma_hex_channel_pair(hex, 2);
    lemma_hex_channel_pair(hex, 4);
}

fn hex_channel(h: &[char], a: usize, b: usize) -> (r: u8)
    requires
        is_boundary(h@, a as int),
        is_boundary(h@, b as int),
        a <= b,
    ensures
        r == hex_byte(byte_range(h@, a as int, b as int)),
{
    let ka = char_index_of_byte(h, a);
    let kb = char_index_of_byte(h, b);
    proof {
        lemma_boundary_split(h@, a as int);
        lemma_boundary_split(h@, b as int);
        if kb < ka {
            crate::utf8len::lemma_blen_mono(h@, kb as int, ka as int);
        }
    }
    match parse_u32_radix(vstd::slice::slice_subrange(h, ka, kb), 16) {
        Some(v) => if v <= 255 {
            v as u8
        } else {
            0
        },
        None => 0,
    }
}

/// Reads `#RRGGBB` as its three channels.
pub fn parse_hex_color(hex: &str) -> (r: (u8, u8, u8))
    requires
        hex_readable(hex@),
    ensures
        r == hex_color(hex@),
{
    let chars = chars_of(hex);
    let lead = run_length(chars.as_slice(), 0, '#');
    let h = vstd::slice::slice_subrange(chars.as_slice(), lead, chars.len());
    proof {
        assert(h@ =~= hex_digits(hex@));
    }
    let r = hex_channel(h, 0, 2);
    let g = hex_channel(h, 2, 4);
    let b = hex_channel(h, 4, 6);
    (r, g, b)
}

/// Reads `#RRGGBB` as [`parse_hex_color`] does where the text after the
/// `#`s splits into characters at bytes 2, 4 and 6; `None` elsewhere,
/// where reading the pairs would fail.
pub fn parse_hex_checked(hex: &str) -> (r: Option<(u8, u8, u8)>)
    ensures
        r == if hex_readable(hex@) {
            Some(hex_color(hex@))
        } else {
            None::<(u8, u8, u8)>
        },
{
    let chars = chars_of(hex);
    let lead = run_length(chars.as_slice(), 0, '#');
    let h = vstd::slice::slice_subrange(chars.as_slice(), lead, chars.len());
    proof {
        assert(h@ =~= hex_digits(hex@));
    }
    if crate::utf8len::is_char_boundary(h, 2) && crate::utf8len::is_char_boundary(h, 4)
        && crate::utf8len::is_char_boundary(h, 6) {
        Some(parse_hex_color(hex))
    } else {
        None
    }
}

impl EditorColors {
    /// Reads `#RRGGBB` as its three channels; a pair that is not a
    /// hexadecimal number reads as 0.
    pub fn parse_hex(hex: &str) -> (r: (u8, u8, u8))
        requires
            hex_readable(hex@),
        ensures
            r == hex_color(hex@),
    {
        parse_hex_color(hex)
    }
}

impl UiColors {
    /// Reads `#RRGGBB` as its three channels, as [`EditorColors::parse_hex`].
    pub fn parse_hex(hex: &str) -> (r: (u8, u8, u8))
        requires
            hex_readable(hex@),
        ensures
            r == hex_color(hex@),
    {
        EditorColors::parse_hex(hex)
    }
}

} // verus!
