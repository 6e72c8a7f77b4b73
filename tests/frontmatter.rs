use markwrite::document::{strip_frontmatter, Frontmatter, MarkwriteOptions};

#[test]
fn strip_frontmatter_removes_frontmatter() {
    // arrange
    let markdown = "---
title: Test Document
---

# Test

This is a test.";

    // act
    let (_, result) = strip_frontmatter(markdown);

    // assert
    let expected_result = "# Test

This is a test.";
    assert_eq!(result, expected_result);
}

#[test]
fn strip_frontmatter_returns_expected_result_when_frontmatter_is_absent() {
    // arrange
    let markdown = "# Test

This is a test.";

    // act
    let (_, result) = strip_frontmatter(markdown);

    // assert
    assert_eq!(result, markdown);
}

#[test]
fn strip_frontmatter_returns_trimmed_frontmatter() {
    let markdown = "---  \r\n  title: Test Document\n---\n\nBody text.\n";
    let (frontmatter, body) = strip_frontmatter(markdown);
    assert_eq!(frontmatter, Some("title: Test Document"));
    assert_eq!(body, "Body text.");
}

#[test]
fn strip_frontmatter_keeps_input_without_closing_fence() {
    let markdown = "---\ntitle: Test Document\n\n# Test";
    assert_eq!(strip_frontmatter(markdown), (None, markdown));
}

#[test]
fn strip_frontmatter_keeps_input_without_newline() {
    assert_eq!(strip_frontmatter("---"), (None, "---"));
    assert_eq!(strip_frontmatter(""), (None, ""));
}

#[test]
fn strip_frontmatter_needs_fence_on_first_line() {
    let markdown = "# Title\n---\na: b\n---\nbody";
    assert_eq!(strip_frontmatter(markdown), (None, markdown));
}

#[test]
fn frontmatter_title_falls_back_to_default() {
    let untitled = Frontmatter {
        title: None,
        description: None,
        canonical_url: None,
    };
    assert_eq!(untitled.document_title(), "Markwrite Document");
    let titled = Frontmatter {
        title: Some("Notes".to_string()),
        description: None,
        canonical_url: None,
    };
    assert_eq!(titled.document_title(), "Notes");
}

#[test]
fn options_enable_grammar_check() {
    let mut options = MarkwriteOptions::default();
    assert!(!options.check_grammar());
    options.enable_grammar_check();
    assert!(options.check_grammar());
}

#[test]
fn frontmatter_reads_string_entries_of_first_document() {
    let f = Frontmatter::from_yaml("title: Test Document\ndescription: A test\nother: 3");
    assert_eq!(
        f,
        Frontmatter {
            title: Some("Test Document".to_string()),
            description: Some("A test".to_string()),
            canonical_url: None,
        }
    );
    let url = Frontmatter::from_yaml("canonical_url: https://example.com/a\n---\ntitle: Second");
    assert_eq!(url.canonical_url.as_deref(), Some("https://example.com/a"));
    assert_eq!(url.title, None);
}

#[test]
fn frontmatter_without_yaml_document_is_empty() {
    assert_eq!(Frontmatter::from_yaml(""), Frontmatter::empty());
    assert_eq!(Frontmatter::from_yaml("title: [unclosed"), Frontmatter::empty());
    assert_eq!(Frontmatter::from_yaml("title: 3").title, None);
}
