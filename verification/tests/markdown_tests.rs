use zelkova::markdown::ast::{Block, Inline, ListMarker, TableAlign};
use zelkova::markdown::block::{detect_blocks, parse_list_marker, BlockKind};
use zelkova::markdown::inline::parse_inline;
use zelkova::markdown::parser::parse;
use zelkova::markdown::plain::inline_to_string;

#[test]
fn block_detect_heading() {
    let lines = vec!["# Hello", "## World"];
    let slices = detect_blocks(&lines);
    assert_eq!(slices.len(), 2);
    assert!(matches!(slices[0].kind, BlockKind::Heading { level: 1 }));
    assert!(matches!(slices[1].kind, BlockKind::Heading { level: 2 }));
}

#[test]
fn block_detect_code_block() {
    let lines = vec!["```rust", "fn main() {}", "```"];
    let slices = detect_blocks(&lines);
    assert_eq!(slices.len(), 1);
    assert!(matches!(slices[0].kind, BlockKind::CodeBlock { .. }));
    assert_eq!(slices[0].start, 0);
    assert_eq!(slices[0].end, 2);
}

#[test]
fn detect_thematic_break() {
    let lines = vec!["---", "***", "___"];
    let slices = detect_blocks(&lines);
    assert_eq!(slices.len(), 3);
    assert!(matches!(slices[0].kind, BlockKind::ThematicBreak));
}

#[test]
fn detect_list() {
    let lines = vec!["- item 1", "- item 2", "  continuation"];
    let slices = detect_blocks(&lines);
    assert_eq!(slices.len(), 1);
    assert!(matches!(slices[0].kind, BlockKind::List { .. }));
}

#[test]
fn detect_block_quote() {
    let lines = vec!["> quoted", "> still quoted"];
    let slices = detect_blocks(&lines);
    assert_eq!(slices.len(), 1);
    assert!(matches!(slices[0].kind, BlockKind::BlockQuote));
}

#[test]
fn detect_table() {
    let lines = vec!["| a | b |", "| --- | --- |", "| 1 | 2 |"];
    let slices = detect_blocks(&lines);
    assert_eq!(slices.len(), 1);
    assert!(matches!(slices[0].kind, BlockKind::Table));
}

#[test]
fn detect_paragraph() {
    let lines = vec!["Hello world", "", "Second paragraph"];
    let slices = detect_blocks(&lines);
    assert_eq!(slices.len(), 2);
    assert!(matches!(slices[0].kind, BlockKind::Paragraph));
    assert!(matches!(slices[1].kind, BlockKind::Paragraph));
}

#[test]
fn detect_math_block() {
    let lines = vec!["$$", "E = mc^2", "$$"];
    let slices = detect_blocks(&lines);
    assert_eq!(slices.len(), 1);
    assert!(matches!(slices[0].kind, BlockKind::MathBlock));
}

#[test]
fn parse_list_marker_variants() {
    assert!(matches!(parse_list_marker("- item"), Some(ListMarker::Dash)));
    assert!(matches!(parse_list_marker("* item"), Some(ListMarker::Star)));
    assert!(matches!(parse_list_marker("+ item"), Some(ListMarker::Plus)));
    assert!(matches!(parse_list_marker("1. item"), Some(ListMarker::Number(1))));
    assert!(parse_list_marker("plain text").is_none());
}

#[test]
fn parse_plain_text() {
    let result = parse_inline("hello world");
    assert_eq!(result.len(), 1);
    assert!(matches!(&result[0], Inline::Text(t) if t == "hello world"));
}

#[test]
fn parse_bold() {
    let result = parse_inline("**bold**");
    assert!(matches!(&result[0], Inline::Bold(children) if children.len() == 1));
}

#[test]
fn parse_italic() {
    let result = parse_inline("*italic*");
    assert!(matches!(&result[0], Inline::Italic(_)));
}

#[test]
fn parse_code() {
    let result = parse_inline("`code`");
    assert!(matches!(&result[0], Inline::Code(c) if c == "code"));
}

#[test]
fn parse_link() {
    let result = parse_inline("[text](http://example.com)");
    assert!(matches!(&result[0], Inline::Link { url, .. } if url == "http://example.com"));
}

#[test]
fn parse_image() {
    let result = parse_inline("![alt](image.png)");
    assert!(
        matches!(&result[0], Inline::Image { alt, url, .. } if alt == "alt" && url == "image.png")
    );
}

#[test]
fn parse_strikethrough() {
    let result = parse_inline("~~deleted~~");
    assert!(matches!(&result[0], Inline::Strikethrough(_)));
}

#[test]
fn parse_math() {
    let result = parse_inline("$E=mc^2$");
    assert!(matches!(&result[0], Inline::Math(m) if m == "E=mc^2"));
}

#[test]
fn inline_parse_mixed() {
    let result = parse_inline("hello **bold** and *italic* world");
    assert!(result.len() >= 5);
}

#[test]
fn parse_footnote_ref() {
    let result = parse_inline("[^label]");
    assert!(matches!(&result[0], Inline::FootnoteRef(l) if l == "label"));
}

#[test]
fn parse_heading() {
    let doc = parse("# Hello World");
    assert_eq!(doc.blocks.len(), 1);
    assert!(matches!(&doc.blocks[0], Block::Heading { level: 1, .. }));
}

#[test]
fn parse_paragraph() {
    let doc = parse("Hello world\nSecond line");
    assert_eq!(doc.blocks.len(), 1);
    assert!(matches!(&doc.blocks[0], Block::Paragraph(_)));
}

#[test]
fn parse_code_block() {
    let doc = parse("```rust\nfn main() {}\n```");
    assert_eq!(doc.blocks.len(), 1);
    if let Block::CodeBlock { language, code } = &doc.blocks[0] {
        assert_eq!(language.as_deref(), Some("rust"));
        assert!(code.contains("fn main()"));
    } else {
        panic!("expected CodeBlock");
    }
}

#[test]
fn parse_list() {
    let doc = parse("- item 1\n- item 2\n- item 3");
    assert_eq!(doc.blocks.len(), 1);
    if let Block::List { items } = &doc.blocks[0] {
        assert_eq!(items.len(), 3);
    }
}

#[test]
fn parse_block_quote() {
    let doc = parse("> quoted text");
    assert_eq!(doc.blocks.len(), 1);
    assert!(matches!(&doc.blocks[0], Block::BlockQuote(_)));
}

#[test]
fn parse_table() {
    let doc = parse("| a | b |\n| --- | --- |\n| 1 | 2 |");
    assert_eq!(doc.blocks.len(), 1);
    if let Block::Table { headers, rows, .. } = &doc.blocks[0] {
        assert_eq!(headers.len(), 2);
        assert_eq!(rows.len(), 1);
    }
}

#[test]
fn parse_math_block() {
    let doc = parse("$$\nE = mc^2\n$$");
    assert_eq!(doc.blocks.len(), 1);
    assert!(matches!(&doc.blocks[0], Block::MathBlock { .. }));
}

#[test]
fn parse_frontmatter() {
    let doc = parse("---\ntitle: Test\n---\n\n# Hello");
    assert!(doc.frontmatter.is_some());
    assert_eq!(doc.blocks.len(), 1);
}

#[test]
fn parser_parse_mixed() {
    let doc = parse("# Title\n\nParagraph with **bold**.\n\n- list item\n\n```\ncode\n```");
    assert_eq!(doc.blocks.len(), 4);
}

#[test]
fn parse_thematic_break() {
    let doc = parse("---");
    if doc.frontmatter.is_some() {
        // front matter took the line
    } else {
        assert!(matches!(&doc.blocks[0], Block::ThematicBreak));
    }
}

#[test]
fn inline_hard_and_soft_breaks() {
    let result = parse_inline("a\\\nb  \nc\nd");
    assert!(matches!(&result[0], Inline::Text(t) if t == "a"));
    assert!(matches!(&result[1], Inline::HardBreak));
    assert!(matches!(&result[2], Inline::Text(t) if t == "b"));
    assert!(matches!(&result[3], Inline::HardBreak));
    assert!(matches!(&result[4], Inline::Text(t) if t == "c"));
    assert!(matches!(&result[5], Inline::SoftBreak));
    assert!(matches!(&result[6], Inline::Text(t) if t == "d"));
    assert_eq!(result.len(), 7);
}

#[test]
fn inline_unclosed_markers_are_text() {
    let result = parse_inline("a * b");
    assert_eq!(result.len(), 3);
    assert!(matches!(&result[1], Inline::Text(t) if t == "*"));
    let result = parse_inline("[x](y");
    assert!(matches!(&result[0], Inline::Text(t) if t == "["));
}

#[test]
fn inline_html_and_double_backticks() {
    let result = parse_inline("<br>``a`b``");
    assert!(matches!(&result[0], Inline::HtmlTag(t) if t == "<br>"));
    assert!(matches!(&result[1], Inline::Code(c) if c == "a`b"));
    assert_eq!(result.len(), 2);
}

#[test]
fn inline_link_text_is_parsed() {
    let result = parse_inline("[**x**](u)");
    if let Inline::Link { text, url, title } = &result[0] {
        assert_eq!(url, "u");
        assert!(title.is_none());
        assert!(matches!(&text[0], Inline::Bold(_)));
    } else {
        panic!("expected a link");
    }
}

#[test]
fn detect_unclosed_fence_runs_to_end() {
    let lines = vec!["```", "a", "b"];
    let slices = detect_blocks(&lines);
    assert_eq!(slices.len(), 1);
    assert_eq!(slices[0].start, 0);
    assert_eq!(slices[0].end, 2);
}

#[test]
fn detect_paragraph_stops_before_heading() {
    let lines = vec!["text", "# Head"];
    let slices = detect_blocks(&lines);
    assert_eq!(slices.len(), 2);
    assert!(matches!(slices[0].kind, BlockKind::Paragraph));
    assert_eq!(slices[0].end, 0);
}

#[test]
fn detect_footnote_and_html() {
    let lines = vec!["[^n]: note text", "more", "", "<div>", "x"];
    let slices = detect_blocks(&lines);
    assert_eq!(slices.len(), 2);
    assert!(matches!(&slices[0].kind, BlockKind::FootnoteDef { label } if label == "n"));
    assert_eq!(slices[0].end, 1);
    assert!(matches!(slices[1].kind, BlockKind::HtmlBlock));
    assert_eq!(slices[1].start, 3);
    assert_eq!(slices[1].end, 4);
}

#[test]
fn list_marker_numbers() {
    assert!(matches!(parse_list_marker("  42. x"), Some(ListMarker::Number(42))));
    assert!(matches!(parse_list_marker("+7. x"), Some(ListMarker::Number(7))));
    assert!(parse_list_marker("x. y").is_none());
    assert!(parse_list_marker("99999999999. y").is_none());
}

#[test]
fn parse_table_alignments() {
    let doc = parse("| a | b | c |\n|:-|:-:|-:|\n| 1 | 2 | 3 |\n| 4 | 5 | 6 |");
    if let Block::Table { headers, aligns, rows } = &doc.blocks[0] {
        assert_eq!(headers.len(), 3);
        assert_eq!(
            aligns,
            &vec![Some(TableAlign::Left), Some(TableAlign::Center), Some(TableAlign::Right)]
        );
        assert_eq!(rows.len(), 2);
    } else {
        panic!("expected a table");
    }
}

#[test]
fn parse_nested_quote_and_footnote() {
    let doc = parse("> # Inner\n> text\n\n[^a]: first\nsecond");
    assert_eq!(doc.blocks.len(), 2);
    if let Block::BlockQuote(inner) = &doc.blocks[0] {
        assert_eq!(inner.len(), 2);
        assert!(matches!(&inner[0], Block::Heading { level: 1, .. }));
    } else {
        panic!("expected a quote");
    }
    if let Block::FootnoteDefinition { label, content } = &doc.blocks[1] {
        assert_eq!(label, "a");
        assert_eq!(content.len(), 1);
        assert!(matches!(&content[0], Block::Paragraph(_)));
    } else {
        panic!("expected a footnote");
    }
}

#[test]
fn parse_list_items_have_no_sub_items() {
    let doc = parse("- a\n  - b\n- c");
    if let Block::List { items } = &doc.blocks[0] {
        assert_eq!(items.len(), 3);
        assert!(items.iter().all(|i| i.sub_items.is_empty()));
    } else {
        panic!("expected a list");
    }
}

#[test]
fn parse_code_block_contents() {
    let doc = parse("~~~\nline 1\nline 2\n~~~\n$$\nx\n$$");
    assert_eq!(doc.blocks.len(), 2);
    if let Block::CodeBlock { language, code } = &doc.blocks[0] {
        assert!(language.is_none());
        assert_eq!(code, "line 1\nline 2");
    } else {
        panic!("expected code");
    }
    assert!(matches!(&doc.blocks[1], Block::MathBlock { content } if content == "x"));
}

#[test]
fn inline_plain_text() {
    let inlines = parse_inline("**bold** and [link](http://x) ![alt](i.png) `code` $x$");
    assert_eq!(inline_to_string(&inlines), "bold and link alt code x");
    let nested = vec![
        Inline::Italic(vec![Inline::Text("a".to_string()), Inline::SoftBreak]),
        Inline::FootnoteRef("1".to_string()),
        Inline::HardBreak,
        Inline::HtmlTag("<br>".to_string()),
    ];
    assert_eq!(inline_to_string(&nested), "a [^1]\n<br>");
    assert_eq!(inline_to_string(&[]), "");
}

#[test]
fn parse_inline_two_space_hard_break() {
    let result = parse_inline("a  \nb");
    assert_eq!(result.len(), 3);
    assert!(matches!(&result[0], Inline::Text(t) if t == "a"));
    assert!(matches!(&result[1], Inline::HardBreak));
    assert!(matches!(&result[2], Inline::Text(t) if t == "b"));
    assert!(!result.iter().any(|i| matches!(i, Inline::SoftBreak)));
}

#[test]
fn parse_inline_three_spaces_keep_one() {
    let result = parse_inline("a   \nb");
    assert!(matches!(&result[0], Inline::Text(t) if t == "a "));
    assert!(matches!(&result[1], Inline::HardBreak));
}

#[test]
fn parse_empty_fenced_code_block() {
    let doc = parse("```\n```");
    assert_eq!(doc.blocks.len(), 1);
    if let Block::CodeBlock { language, code } = &doc.blocks[0] {
        assert!(language.is_none());
        assert_eq!(code, "");
    } else {
        panic!("expected CodeBlock");
    }
}

#[test]
fn detect_blocks_skip_only_blank_lines() {
    let lines = vec!["", "para", "  ", "# h", "", "- item"];
    let slices = detect_blocks(&lines);
    for s in &slices {
        assert!(!lines[s.start].trim().is_empty());
    }
    for (i, l) in lines.iter().enumerate() {
        if !l.trim().is_empty() {
            assert!(slices.iter().any(|s| s.start <= i && i <= s.end));
        }
    }
}
