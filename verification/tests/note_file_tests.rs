use zelkova::notes::{format_note_text, split_frontmatter};

#[test]
fn split_frontmatter_basic() {
    let content = "---\ntitle: Test Note\ntags:\n- rust\n---\n\n# Hello\n\nBody.";
    let (yaml, body) = split_frontmatter(content).expect("header present");
    assert_eq!(yaml, "\ntitle: Test Note\ntags:\n- rust\n");
    assert_eq!(body, "# Hello\n\nBody.");
}

#[test]
fn split_frontmatter_after_leading_space() {
    let (yaml, body) = split_frontmatter("  \n---\na: 1\n---body").expect("header present");
    assert_eq!(yaml, "\na: 1\n");
    assert_eq!(body, "body");
}

#[test]
fn split_frontmatter_missing_returns_none() {
    assert_eq!(split_frontmatter("# Just a heading\n\nNo frontmatter."), None);
    assert_eq!(split_frontmatter(""), None);
}

#[test]
fn split_frontmatter_unclosed_returns_none() {
    assert_eq!(split_frontmatter("---\ntitle: x\nno closing"), None);
    assert_eq!(split_frontmatter("-----"), None);
}

#[test]
fn format_then_split_round_trip() {
    let text = format_note_text("title: T\ntags:\n- a\n", "\n  Hello");
    assert_eq!(text, "---\ntitle: T\ntags:\n- a\n---\n\n  Hello");
    let (yaml, body) = split_frontmatter(&text).expect("header present");
    assert_eq!(yaml, "\ntitle: T\ntags:\n- a\n");
    assert_eq!(body, "Hello");
}
