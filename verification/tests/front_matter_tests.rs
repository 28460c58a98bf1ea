use rust_architecture::front_matter::{extract_first_paragraph, extract_front_matter};

#[test]
fn test_extract_front_matter_with_valid_yaml() {
    let content = r#"---
description: "Core utilities"
category: "Utilities"
---

# Header
Some content"#;

    let front_matter = extract_front_matter(content);
    assert!(front_matter.is_some());
    let fm = front_matter.unwrap();
    assert!(fm.contains("description"));
    assert!(fm.contains("Core utilities"));
}

#[test]
fn test_extract_front_matter_without_delimiters() {
    let content = r#"# Header
Some content without front matter"#;

    let front_matter = extract_front_matter(content);
    assert!(front_matter.is_none());
}

#[test]
fn test_extract_front_matter_empty_file() {
    let content = "";
    let front_matter = extract_front_matter(content);
    assert!(front_matter.is_none());
}

#[test]
fn test_extract_front_matter_only_opening_delimiter() {
    let content = r#"---
description: "Test"
No closing delimiter"#;

    let front_matter = extract_front_matter(content);
    assert!(front_matter.is_none());
}

#[test]
fn test_extract_first_paragraph_simple() {
    let content = r#"# Title

This is the first paragraph.

This is the second paragraph."#;

    let result = extract_first_paragraph(content);
    assert_eq!(result, Some("This is the first paragraph.".to_string()));
}

#[test]
fn test_extract_first_paragraph_with_front_matter() {
    let content = r#"---
category: "Test"
---

# Title

This is the description from the content.

More content here."#;

    let result = extract_first_paragraph(content);
    assert_eq!(result, Some("This is the description from the content.".to_string()));
}

#[test]
fn test_extract_first_paragraph_multiline() {
    let content = r#"# Title

This is a paragraph that spans
multiple lines without
a blank line break.

This is the second paragraph."#;

    let result = extract_first_paragraph(content);
    assert_eq!(
        result,
        Some("This is a paragraph that spans multiple lines without a blank line break.".to_string())
    );
}

#[test]
fn test_extract_first_paragraph_no_content() {
    let content = r#"# Title"#;

    let result = extract_first_paragraph(content);
    assert_eq!(result, None);
}

#[test]
fn test_extract_first_paragraph_only_headings() {
    let content = r#"# Title

## Section 1

## Section 2"#;

    let result = extract_first_paragraph(content);
    assert_eq!(result, None);
}

#[test]
fn front_matter_is_exactly_the_body() {
    assert_eq!(extract_front_matter("---\nkey: value\n---\nrest"), Some("key: value"));
    assert_eq!(extract_front_matter("---\na: 1\nb: 2\n---\n"), Some("a: 1\nb: 2"));
    assert_eq!(extract_front_matter("---\na: 1\n---"), Some("a: 1"));
}

#[test]
fn front_matter_with_carriage_returns() {
    assert_eq!(extract_front_matter("---\r\nkey: value\r\n---\r\nrest"), Some("key: value"));
    assert_eq!(extract_front_matter("---\r\n---\r\n"), Some(""));
}

#[test]
fn front_matter_may_be_empty() {
    assert_eq!(extract_front_matter("---\n---\nrest"), Some(""));
    assert_eq!(extract_front_matter("---\n\n---\nrest"), Some(""));
}

#[test]
fn front_matter_first_closing_delimiter_wins() {
    assert_eq!(extract_front_matter("---\na\n---\nb\n---\n"), Some("a"));
    assert_eq!(extract_front_matter("---\na\n---trailing\nb"), Some("a"));
}

#[test]
fn front_matter_needs_the_delimiter_at_the_very_start() {
    assert_eq!(extract_front_matter(" ---\na\n---\n"), None);
    assert_eq!(extract_front_matter("\n---\na\n---\n"), None);
    assert_eq!(extract_front_matter("---a\nb\n---\n"), None);
    assert_eq!(extract_front_matter("---"), None);
    assert_eq!(extract_front_matter("--"), None);
}

#[test]
fn front_matter_keeps_characters_outside_ascii() {
    assert_eq!(extract_front_matter("---\nclé: valeur ✓\n---\n"), Some("clé: valeur ✓"));
}

#[test]
fn first_paragraph_joins_lines_with_one_space() {
    assert_eq!(extract_first_paragraph("A\nB\nC"), Some("A B C".to_string()));
    assert_eq!(
        extract_first_paragraph("line one\nline two\nline three"),
        Some("line one line two line three".to_string())
    );
    assert_eq!(extract_first_paragraph("  A  \r\n\tB \r\n C\r\n"), Some("A B C".to_string()));
}

#[test]
fn first_paragraph_ends_at_a_heading() {
    assert_eq!(extract_first_paragraph("text\n# Heading\nmore"), Some("text".to_string()));
    assert_eq!(extract_first_paragraph("# H\none\ntwo\n## Sub\nthree"), Some("one two".to_string()));
}

#[test]
fn first_paragraph_of_nothing() {
    assert_eq!(extract_first_paragraph(""), None);
    assert_eq!(extract_first_paragraph("\n\n  \n"), None);
    assert_eq!(extract_first_paragraph("# A\n\n## B\n   ### C\n"), None);
}

#[test]
fn first_paragraph_behind_front_matter() {
    assert_eq!(
        extract_first_paragraph("---\ncategory: x\n---\nbody text\n"),
        Some("body text".to_string())
    );
    assert_eq!(extract_first_paragraph("---\ncategory: x\n---"), None);
    assert_eq!(extract_first_paragraph("---\ncategory: x\nnever closed\n"), None);
}

#[test]
fn first_paragraph_is_one_trimmed_line() {
    let texts = [
        "  one  \n\ttwo\t\n\nthree",
        "# h\n\u{3000}wide space\u{3000}\nnext\u{A0}\n",
        "a\r\nb\r\n\r\nc",
    ];
    for text in texts {
        let paragraph = extract_first_paragraph(text).unwrap();
        assert!(!paragraph.is_empty());
        assert!(!paragraph.contains('\n'));
        assert_eq!(paragraph.trim(), paragraph);
    }
    assert_eq!(extract_first_paragraph(texts[1]), Some("wide space next".to_string()));
    assert_eq!(extract_first_paragraph(texts[2]), Some("a b".to_string()));
}

#[test]
fn front_matter_delimiter_may_end_in_a_bare_carriage_return() {
    assert_eq!(extract_front_matter("---\rkey: v\n---\n"), Some("key: v"));
    assert_eq!(extract_front_matter("---\rkey: v\r---\r"), None);
}
