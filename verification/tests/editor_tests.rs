use zelkova::gui::command_palette::{fuzzy_match, replace_in_string};
use zelkova::gui::document::{build_highlights, code_blocks};
use zelkova::highlight::StyledRange;
use zelkova::gui::highlight::{
    detect_line_context, highlight_fence_line, highlight_line, scan_inline, BlockContext,
    LineHeight, LineStyle, SpanKind,
};
use zelkova::gui::ime::ImeState;
use zelkova::gui::keymap::{all_action_entries, all_command_specs, ArgType};
use zelkova::gui::pane::{PaneId, SplitDirection, ViewMode};
use zelkova::gui::theme::MarkdownColors;
use zelkova::gui::util::{
    byte_to_utf16, char_idx_to_byte, is_break_opportunity_after, parse_tags_from_input,
    split_at_char_col, split_lines, utf16_to_byte, utf8_char_len,
};

fn has(tags: &[String], t: &str) -> bool {
    tags.iter().any(|x| x == t)
}

#[test]
fn util_parse_single_tag() {
    let tags = parse_tags_from_input("#work");
    assert!(has(&tags, "work"));
    assert_eq!(tags.len(), 1);
}

#[test]
fn util_parse_multiple_tags() {
    let tags = parse_tags_from_input("#work #meeting #project");
    assert_eq!(tags.len(), 3);
    assert!(has(&tags, "work"));
    assert!(has(&tags, "meeting"));
    assert!(has(&tags, "project"));
}

#[test]
fn util_discard_invalid_tokens() {
    let tags = parse_tags_from_input("#work garbage #meeting");
    assert_eq!(tags.len(), 2);
    assert!(has(&tags, "work"));
    assert!(has(&tags, "meeting"));
}

#[test]
fn util_empty_hash_discarded() {
    let tags = parse_tags_from_input("# #valid");
    assert_eq!(tags.len(), 1);
    assert!(has(&tags, "valid"));
}

#[test]
fn util_empty_input() {
    let tags = parse_tags_from_input("");
    assert!(tags.is_empty());
}

#[test]
fn util_full_width_space_normalization() {
    let input = "#work\u{3000}#meeting\u{3000}garbage";
    let normalized = input.replace('\u{3000}', " ");
    let tags = parse_tags_from_input(&normalized);
    assert_eq!(tags.len(), 2);
    assert!(has(&tags, "work"));
    assert!(has(&tags, "meeting"));
}

#[test]
fn util_duplicate_tags_deduped() {
    let tags = parse_tags_from_input("#work #work #meeting");
    assert_eq!(tags.len(), 2);
}

#[test]
fn mod_parse_single_tag() {
    let tags = parse_tags_from_input("#work");
    assert!(has(&tags, "work"));
    assert_eq!(tags.len(), 1);
}

#[test]
fn mod_parse_multiple_tags() {
    let tags = parse_tags_from_input("#work #meeting #project");
    assert_eq!(tags.len(), 3);
    assert!(has(&tags, "work"));
    assert!(has(&tags, "meeting"));
    assert!(has(&tags, "project"));
}

#[test]
fn mod_discard_invalid_tokens() {
    let tags = parse_tags_from_input("#work garbage #meeting");
    assert_eq!(tags.len(), 2);
    assert!(has(&tags, "work"));
    assert!(has(&tags, "meeting"));
}

#[test]
fn mod_empty_hash_discarded() {
    let tags = parse_tags_from_input("# #valid");
    assert_eq!(tags.len(), 1);
    assert!(has(&tags, "valid"));
}

#[test]
fn mod_empty_input() {
    let tags = parse_tags_from_input("");
    assert!(tags.is_empty());
}

#[test]
fn mod_full_width_space_normalization() {
    let input = "#work\u{3000}#meeting\u{3000}garbage";
    let normalized = input.replace('\u{3000}', " ");
    let tags = parse_tags_from_input(&normalized);
    assert_eq!(tags.len(), 2);
    assert!(has(&tags, "work"));
    assert!(has(&tags, "meeting"));
}

#[test]
fn mod_duplicate_tags_deduped() {
    let tags = parse_tags_from_input("#work #work #meeting");
    assert_eq!(tags.len(), 2);
}

#[test]
fn tags_keep_first_appearance_order() {
    let tags = parse_tags_from_input("  #b\t#a #b\n#c x#d");
    assert_eq!(tags, vec!["b".to_string(), "a".to_string(), "c".to_string()]);
}

#[test]
fn split_empty() {
    assert_eq!(split_lines(""), vec![""]);
}

#[test]
fn split_single_line() {
    assert_eq!(split_lines("hello"), vec!["hello"]);
}

#[test]
fn split_trailing_newline() {
    assert_eq!(split_lines("a\nb\n"), vec!["a", "b", ""]);
}

#[test]
fn split_no_trailing_newline() {
    assert_eq!(split_lines("a\nb"), vec!["a", "b"]);
}

#[test]
fn split_crlf_lines() {
    assert_eq!(split_lines("a\r\nb\r\n"), vec!["a", "b", ""]);
}

#[test]
fn split_at_start() {
    let (before, after) = split_at_char_col("hello", 0);
    assert_eq!(before, "");
    assert_eq!(after, "hello");
}

#[test]
fn split_at_middle() {
    let (before, after) = split_at_char_col("hello", 2);
    assert_eq!(before, "he");
    assert_eq!(after, "llo");
}

#[test]
fn split_at_end() {
    let (before, after) = split_at_char_col("hello", 5);
    assert_eq!(before, "hello");
    assert_eq!(after, "");
}

#[test]
fn split_past_end() {
    let (before, after) = split_at_char_col("hello", 10);
    assert_eq!(before, "hello");
    assert_eq!(after, "");
}

#[test]
fn split_multibyte() {
    let (before, after) = split_at_char_col("aあb", 1);
    assert_eq!(before, "a");
    assert_eq!(after, "あb");
}

#[test]
fn utf16_roundtrip_ascii() {
    let text = "hello";
    assert_eq!(utf16_to_byte(text, byte_to_utf16(text, 3)), 3);
}

#[test]
fn utf16_roundtrip_multibyte() {
    let text = "aあb";
    assert_eq!(byte_to_utf16(text, 4), 2);
    assert_eq!(utf16_to_byte(text, 2), 4);
}

#[test]
fn utf16_surrogate_pair() {
    let text = "a🎉b";
    assert_eq!(byte_to_utf16(text, 1), 1);
    assert_eq!(byte_to_utf16(text, 5), 3);
    assert_eq!(utf16_to_byte(text, 3), 5);
}

#[test]
fn utf16_roundtrip_every_boundary() {
    let text = "x🎉éあ\n";
    for (b, _) in text.char_indices().chain(std::iter::once((text.len(), ' '))) {
        assert_eq!(utf16_to_byte(text, byte_to_utf16(text, b)), b);
    }
    assert_eq!(utf16_to_byte(text, 2), 5);
    assert_eq!(utf16_to_byte(text, 100), text.len());
}

#[test]
fn char_index_to_byte_offsets() {
    assert_eq!(char_idx_to_byte("aあb", 0), 0);
    assert_eq!(char_idx_to_byte("aあb", 2), 4);
    assert_eq!(char_idx_to_byte("aあb", 3), 5);
    assert_eq!(char_idx_to_byte("aあb", 9), 5);
}

#[test]
fn utf8_lengths_from_first_byte() {
    assert_eq!(utf8_char_len(b'a'), 1);
    assert_eq!(utf8_char_len(0xC3), 2);
    assert_eq!(utf8_char_len(0xE3), 3);
    assert_eq!(utf8_char_len(0xF0), 4);
    assert_eq!(utf8_char_len(0x80), 1);
}

#[test]
fn break_opportunities() {
    assert!(is_break_opportunity_after(" "));
    assert!(is_break_opportunity_after("\t"));
    assert!(is_break_opportunity_after("あ"));
    assert!(!is_break_opportunity_after("a"));
    assert!(!is_break_opportunity_after(""));
}

#[test]
fn new_state_is_idle() {
    let state = ImeState::new();
    assert!(!state.is_composing());
    assert!(state.marked_range.is_none());
}

#[test]
fn set_and_clear_marked() {
    let mut state = ImeState::new();
    state.set_marked(5..10);
    assert!(state.is_composing());
    assert_eq!(state.marked_range, Some(5..10));
    state.clear();
    assert!(!state.is_composing());
}

#[test]
fn take_marked() {
    let mut state = ImeState::new();
    state.set_marked(0..3);
    let range = state.take_marked();
    assert_eq!(range, Some(0..3));
    assert!(!state.is_composing());
}

#[test]
fn highlight_detect_heading() {
    assert!(matches!(detect_line_context("# Hello", false), BlockContext::Heading { level: 1 }));
    assert!(matches!(detect_line_context("### World", false), BlockContext::Heading { level: 3 }));
}

#[test]
fn detect_list_item() {
    assert!(matches!(
        detect_line_context("- item", false),
        BlockContext::ListItem { marker_len: 2 }
    ));
    assert!(matches!(
        detect_line_context("1. first", false),
        BlockContext::ListItem { marker_len: 3 }
    ));
}

#[test]
fn detect_blockquote() {
    assert!(matches!(detect_line_context("> quote", false), BlockContext::BlockQuote));
}

#[test]
fn highlight_detect_code_block() {
    assert!(matches!(detect_line_context("code here", true), BlockContext::CodeBlock { .. }));
}

#[test]
fn detect_normal() {
    assert!(matches!(detect_line_context("just text", false), BlockContext::Normal));
}

#[test]
fn detect_table_lines_and_deep_headings() {
    assert!(matches!(detect_line_context("| --- | :-: |", false), BlockContext::TableSeparator));
    assert!(matches!(detect_line_context("| a | b |", false), BlockContext::TableRow));
    assert!(matches!(detect_line_context("####### x", false), BlockContext::Normal));
    assert!(matches!(detect_line_context("#######", false), BlockContext::Normal));
    assert!(matches!(detect_line_context("######", false), BlockContext::Heading { level: 6 }));
    assert!(matches!(detect_line_context("12. x", false), BlockContext::ListItem { marker_len: 4 }));
    assert!(matches!(detect_line_context("a. x", false), BlockContext::Normal));
}

#[test]
fn pane_id_equality() {
    assert_eq!(PaneId(0), PaneId(0));
    assert_ne!(PaneId(0), PaneId(1));
}

#[test]
fn split_direction_values() {
    assert_ne!(SplitDirection::Horizontal, SplitDirection::Vertical);
}

#[test]
fn view_mode_cycle() {
    let mode = ViewMode::Editor;
    assert_eq!(
        match mode {
            ViewMode::Editor => ViewMode::SplitHorizontal,
            ViewMode::SplitHorizontal => ViewMode::SplitVertical,
            ViewMode::SplitVertical => ViewMode::Preview,
            ViewMode::Preview => ViewMode::Editor,
        },
        ViewMode::SplitHorizontal
    );
}

#[test]
fn action_entries_list() {
    let entries = all_action_entries();
    assert_eq!(entries.len(), 12);
    assert_eq!(entries[0], ("OpenCommandPalette".to_string(), "Open Command Palette".to_string()));
    assert_eq!(entries[11], ("Quit".to_string(), "Quit".to_string()));
}

#[test]
fn command_specs_use_folder_names() {
    let folders = vec!["work".to_string(), "home".to_string()];
    let specs = all_command_specs(&folders);
    assert_eq!(specs.len(), 12);
    assert_eq!(specs[2].label, "Create Note");
    match &specs[2].args[1].arg_type {
        ArgType::Select { options } => {
            assert_eq!(options, &vec!["(root)".to_string(), "work".to_string(), "home".to_string()])
        }
        _ => panic!("expected a select"),
    }
    match &specs[5].args[0].arg_type {
        ArgType::Select { options } => assert_eq!(options, &folders),
        _ => panic!("expected a select"),
    }
    assert!(specs[0].args.is_empty());
    assert!(!specs[5].args[2].optional);
}

#[test]
fn markdown_colors_default_unset() {
    let c = MarkdownColors::default();
    assert!(c.heading.color.is_empty());
    assert!(c.math_bg.is_empty());
}

#[test]
fn fuzzy_match_basic() {
    assert!(fuzzy_match("cn", "Create Note"));
    assert!(fuzzy_match("cf", "Create Folder"));
    assert!(fuzzy_match("", "anything"));
    assert!(!fuzzy_match("xyz", "Create Note"));
}

#[test]
fn fuzzy_match_ignores_case() {
    assert!(fuzzy_match("CN", "create note"));
    assert!(!fuzzy_match("nc", "Create Note x"));
}

#[test]
fn replace_in_string_insert() {
    let mut s = "hello".to_string();
    let mut cursor = 5;
    replace_in_string(&mut s, &mut cursor, None, " world");
    assert_eq!(s, "hello world");
    assert_eq!(cursor, 11);
}

#[test]
fn replace_in_string_delete() {
    let mut s = "hello".to_string();
    let mut cursor = 5;
    replace_in_string(&mut s, &mut cursor, Some(4..5), "");
    assert_eq!(s, "hell");
    assert_eq!(cursor, 4);
}

#[test]
fn replace_in_string_backspace() {
    let mut s = "abc".to_string();
    let mut cursor = 3;
    replace_in_string(&mut s, &mut cursor, Some(2..3), "");
    assert_eq!(s, "ab");
    assert_eq!(cursor, 2);
}

#[test]
fn replace_in_string_clamps_to_text() {
    let mut s = "aé".to_string();
    let mut cursor = 99;
    replace_in_string(&mut s, &mut cursor, None, "!");
    assert_eq!(s, "aé!");
    assert_eq!(cursor, 4);
    replace_in_string(&mut s, &mut cursor, Some(1..50), "x");
    assert_eq!(s, "ax");
    assert_eq!(cursor, 2);
}

#[test]
fn scan_inline_spans() {
    let (spans, urls) = scan_inline("**b** `c` ![a](u.png) [l](x) $m$ ~~s~~ *i*", 10);
    let kinds: Vec<SpanKind> = spans.iter().map(|s| s.1).collect();
    assert_eq!(
        kinds,
        vec![
            SpanKind::BoldMarker,
            SpanKind::Bold,
            SpanKind::BoldMarker,
            SpanKind::CodeMarker,
            SpanKind::Code,
            SpanKind::CodeMarker,
            SpanKind::Image,
            SpanKind::Link,
            SpanKind::MathMarker,
            SpanKind::Math,
            SpanKind::MathMarker,
            SpanKind::StrikeMarker,
            SpanKind::Strike,
            SpanKind::StrikeMarker,
            SpanKind::ItalicMarker,
            SpanKind::Italic,
            SpanKind::ItalicMarker,
        ]
    );
    assert_eq!(spans[0].0, 10..12);
    assert_eq!(spans[1].0, 12..13);
    assert_eq!(spans[6].0, 20..31);
    assert_eq!(urls, vec!["u.png".to_string()]);
}

#[test]
fn scan_inline_unclosed_double_marker() {
    let (spans, urls) = scan_inline("**a*", 0);
    assert_eq!(spans.len(), 3);
    assert_eq!(spans[0].1, SpanKind::ItalicMarker);
    assert_eq!(spans[0].0, 1..2);
    assert_eq!(spans[1].0, 2..3);
    assert!(urls.is_empty());
}

#[test]
fn highlight_heading_line() {
    let hl = highlight_line("# Hello", &BlockContext::Heading { level: 1 });
    assert!(!hl.highlights.is_empty());
    assert!(hl.highlights.len() >= 2);
}

#[test]
fn highlight_list_item() {
    let hl = highlight_line("- task item", &BlockContext::ListItem { marker_len: 2 });
    assert!(!hl.highlights.is_empty());
    assert_eq!(hl.highlights[0].0.start, 0);
    assert_eq!(hl.highlights[0].0.end, 2);
}

#[test]
fn highlight_inline_bold() {
    let hl = highlight_line("hello **world** end", &BlockContext::Normal);
    assert!(hl.highlights.iter().any(|(_, s)| s.sets_color()));
}

#[test]
fn highlight_inline_code() {
    let hl = highlight_line("use `code` here", &BlockContext::Normal);
    assert!(hl.highlights.iter().any(|(_, s)| s.sets_background()));
}

#[test]
fn highlight_inline_link() {
    let hl = highlight_line("click [here](http://example.com)", &BlockContext::Normal);
    assert!(hl.highlights.iter().any(|(_, s)| s.sets_underline()));
}

#[test]
fn highlight_inline_image() {
    let hl = highlight_line("![alt](image.png)", &BlockContext::Normal);
    assert_eq!(hl.image_urls, vec!["image.png".to_string()]);
}

#[test]
fn highlight_code_block_no_inline() {
    let hl = highlight_line("**bold**", &BlockContext::CodeBlock { language: None });
    assert!(hl
        .highlights
        .iter()
        .all(|(_, s)| !s.sets_font_weight() && !s.sets_font_style()));
}

fn ranges(hl: &[(std::ops::Range<usize>, LineStyle)]) -> Vec<(usize, usize, LineStyle)> {
    hl.iter().map(|(r, s)| (r.start, r.end, *s)).collect()
}

#[test]
fn highlight_heading_exact() {
    let hl = highlight_line("## Hi *x*", &BlockContext::Heading { level: 2 });
    assert_eq!(
        ranges(&hl.highlights),
        vec![
            (0, 2, LineStyle::HeadingMarker),
            (3, 9, LineStyle::HeadingText),
            (6, 7, LineStyle::Inline(SpanKind::ItalicMarker)),
            (7, 8, LineStyle::Inline(SpanKind::Italic)),
            (8, 9, LineStyle::Inline(SpanKind::ItalicMarker)),
        ]
    );
    assert_eq!(hl.heading_level, Some(2));
    assert_eq!(hl.line_height, LineHeight::Heading(2));
    assert!(!hl.code_background);
}

#[test]
fn highlight_heading_without_hashes() {
    let hl = highlight_line("ab", &BlockContext::Heading { level: 1 });
    assert!(hl.highlights.is_empty());
    assert_eq!(hl.heading_level, None);
    assert_eq!(hl.line_height, LineHeight::Heading(1));
}

#[test]
fn highlight_quote_exact() {
    let hl = highlight_line("> hi", &BlockContext::BlockQuote);
    assert_eq!(
        ranges(&hl.highlights),
        vec![(0, 2, LineStyle::QuoteMarker), (2, 4, LineStyle::QuoteText)]
    );
    assert!(hl.highlights[1].1.sets_font_style());
}

#[test]
fn highlight_empty_code_line() {
    let hl = highlight_line("", &BlockContext::CodeBlock { language: None });
    assert_eq!(ranges(&hl.highlights), vec![(0, 1, LineStyle::CodeText)]);
    assert!(hl.code_background);
    let sep = highlight_line("|---|", &BlockContext::TableSeparator);
    assert_eq!(ranges(&sep.highlights), vec![(0, 5, LineStyle::TableSeparator)]);
    assert!(!sep.highlights[0].1.sets_color());
}

#[test]
fn highlight_table_row_ranges() {
    let hl = highlight_line("|a| b |", &BlockContext::TableRow);
    assert_eq!(
        ranges(&hl.highlights),
        vec![
            (0, 1, LineStyle::TablePipe),
            (1, 1, LineStyle::TableCell),
            (2, 3, LineStyle::TablePipe),
            (4, 4, LineStyle::TableCell),
            (6, 7, LineStyle::TablePipe),
        ]
    );
}

#[test]
fn highlight_table_row_unicode_cell() {
    // "é" takes two bytes; cell ranges are byte offsets.
    let hl = highlight_line("|é|", &BlockContext::TableRow);
    assert_eq!(
        ranges(&hl.highlights),
        vec![
            (0, 1, LineStyle::TablePipe),
            (1, 1, LineStyle::TableCell),
            (3, 4, LineStyle::TablePipe),
        ]
    );
}

#[test]
fn highlight_list_marker_past_end() {
    let hl = highlight_line("-", &BlockContext::ListItem { marker_len: 2 });
    assert_eq!(ranges(&hl.highlights), vec![(0, 1, LineStyle::ListMarker)]);
}

#[test]
fn highlight_fence_with_label() {
    let hl = highlight_fence_line("```rust  ");
    assert_eq!(
        ranges(&hl.highlights),
        vec![
            (0, 3, LineStyle::FenceMarker),
            (3, 7, LineStyle::FenceLabel),
            (7, 9, LineStyle::FenceRest),
        ]
    );
    assert!(hl.code_background);
    assert_eq!(hl.line_height, LineHeight::Default);
}

#[test]
fn highlight_fence_bare() {
    let hl = highlight_fence_line("```");
    assert_eq!(ranges(&hl.highlights), vec![(0, 3, LineStyle::FenceMarker)]);
    let hl = highlight_fence_line("``` ");
    assert_eq!(
        ranges(&hl.highlights),
        vec![(0, 3, LineStyle::FenceMarker), (3, 4, LineStyle::FenceRest)]
    );
}

fn doc(lines: &[&str]) -> Vec<String> {
    lines.iter().map(|s| s.to_string()).collect()
}

#[test]
fn document_blocks_and_lines() {
    let lines = doc(&["# T", "```rust", "let x = 1;", "```", "$$", "x^2", "$$", "text"]);
    let syntax = vec![vec![StyledRange { range: 0..3, highlight_index: 4 }]];
    let hl = build_highlights(&lines, &syntax);
    assert_eq!(hl.len(), lines.len());
    assert_eq!(hl[0].heading_level, Some(1));
    assert_eq!(ranges(&hl[1].highlights), vec![(0, 3, LineStyle::FenceMarker), (3, 7, LineStyle::FenceLabel)]);
    assert!(hl[1].code_background);
    assert_eq!(ranges(&hl[2].highlights), vec![(0, 3, LineStyle::Syntax(4))]);
    assert!(hl[2].code_background);
    assert_eq!(ranges(&hl[3].highlights), vec![(0, 3, LineStyle::FenceMarker)]);
    assert_eq!(ranges(&hl[4].highlights), vec![(0, 2, LineStyle::MathDelimiter)]);
    assert_eq!(ranges(&hl[5].highlights), vec![(0, 3, LineStyle::MathLine)]);
    assert_eq!(ranges(&hl[6].highlights), vec![(0, 2, LineStyle::MathDelimiter)]);
    assert!(hl[7].highlights.is_empty());
    assert!(!hl[7].code_background);
}

#[test]
fn document_code_block_texts() {
    let lines = doc(&["```rust", "a", "b", "```", "```", "x", "```", "```py", "c"]);
    let blocks = code_blocks(&lines);
    assert_eq!(
        blocks,
        vec![("rust", "a\nb".to_string()), ("python", "c".to_string())]
    );
}

#[test]
fn document_syntax_across_lines() {
    let lines = doc(&["```rs", "ab", "cd", "```"]);
    let syntax = vec![vec![
        StyledRange { range: 1..4, highlight_index: 2 },
        StyledRange { range: 0..5, highlight_index: 12 },
    ]];
    let hl = build_highlights(&lines, &syntax);
    assert_eq!(ranges(&hl[1].highlights), vec![(1, 2, LineStyle::Syntax(2))]);
    assert_eq!(ranges(&hl[2].highlights), vec![(0, 1, LineStyle::Syntax(2))]);
}

#[test]
fn document_unknown_language_and_unclosed_fence() {
    let lines = doc(&["```", "# not a heading", "**x**"]);
    let syntax = vec![vec![StyledRange { range: 0..2, highlight_index: 0 }]];
    let hl = build_highlights(&lines, &syntax);
    assert_eq!(hl.len(), 3);
    assert_eq!(ranges(&hl[1].highlights), vec![(0, 15, LineStyle::CodeText)]);
    assert_eq!(hl[1].heading_level, None);
    assert_eq!(ranges(&hl[2].highlights), vec![(0, 5, LineStyle::CodeText)]);
    assert!(code_blocks(&lines).is_empty());
}

#[test]
fn document_math_closed_inline() {
    let lines = doc(&["$$ a", "b $$", "c"]);
    let hl = build_highlights(&lines, &[]);
    assert_eq!(
        ranges(&hl[0].highlights),
        vec![(0, 2, LineStyle::MathDelimiter), (2, 4, LineStyle::MathLine)]
    );
    assert_eq!(ranges(&hl[1].highlights), vec![(0, 4, LineStyle::MathLine)]);
    assert!(hl[2].highlights.is_empty());
}

#[test]
fn fuzzy_match_is_subsequence() {
    assert!(fuzzy_match("", "Create Note"));
    assert!(fuzzy_match("cn", "Create Note"));
    assert!(!fuzzy_match("xyz", "Create Note"));
    assert!(!fuzzy_match("nc", "Create Note x"));
}

#[test]
fn split_lines_join_back() {
    for text in ["a\nb\n", "", "one", "\n\n"] {
        let ls = split_lines(text);
        assert_eq!(ls.join("\n"), text);
        assert_eq!(ls.len(), text.matches('\n').count() + 1);
    }
}

#[test]
fn highlight_spans_stay_on_char_boundaries() {
    for line in ["## **é** x", "> *ü* `ç`", "- [lïnk](u) ~~ß~~", "plain é $x$", "|---|:-:|"] {
        let ctx = detect_line_context(line, false);
        let hl = highlight_line(line, &ctx);
        for (r, _) in &hl.highlights {
            assert!(r.start <= r.end && r.end <= line.len());
            assert!(line.is_char_boundary(r.start) && line.is_char_boundary(r.end));
        }
    }
}
