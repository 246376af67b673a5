use kbase::parser::{MarkdownParser, TreeSitterParser};

#[test]
fn can_load_block_grammar() {
    let mut parser = TreeSitterParser::new().expect("Error loading Markdown block grammar");
    let parsed = parser.parse("# Hello\n\nSee [[other-note]] #tag").unwrap();
    assert_eq!(parsed.headings.len(), 1);
}

#[test]
fn can_load_inline_grammar() {
    let mut parser = TreeSitterParser::new().expect("Error loading Markdown inline grammar");
    let parsed = parser.parse("See [[other-note]] #tag").unwrap();
    assert_eq!(parsed.wikilinks.len(), 1);
    assert_eq!(parsed.tags, vec!["tag"]);
}

#[test]
fn test_wikilink_parsing() {
    let mut parser = TreeSitterParser::new().unwrap();
    let parsed = parser.parse("[[test-note]]").unwrap();
    assert!(parsed.wikilinks.iter().any(|w| w.target == "test-note"), "Should parse wikilink node");
}

#[test]
fn test_tag_parsing() {
    let mut parser = TreeSitterParser::new().unwrap();
    let parsed = parser.parse("#rust").unwrap();
    assert!(parsed.tags.contains(&"rust".to_string()), "Should parse tag node");
}

#[test]
fn test_parser_creation() {
    let parser = TreeSitterParser::new();
    assert!(parser.is_ok());
}

#[test]
fn test_parse_simple_note() {
    let content = "# Main Title\n\nThis is a test note.\n";
    let mut parser = TreeSitterParser::new().unwrap();
    let parsed = parser.parse(content).unwrap();
    assert_eq!(parsed.title, "Main Title");
    assert_eq!(parsed.headings.len(), 1);
    assert_eq!(parsed.headings[0].level, 1);
    assert_eq!(parsed.headings[0].text, "Main Title");
}

#[test]
fn test_parse_with_tags() {
    let content = "# Test\n\nThis has #rust and #deep-dive tags.\n";
    let mut parser = TreeSitterParser::new().unwrap();
    let parsed = parser.parse(content).unwrap();
    assert_eq!(parsed.tags, vec!["deep-dive", "rust"]);
}

#[test]
fn test_parse_with_wikilinks() {
    let content = "See [[other-note]] for details.\nAlso [[domain/note|Display Name]].\n";
    let mut parser = TreeSitterParser::new().unwrap();
    let parsed = parser.parse(content).unwrap();
    assert_eq!(parsed.wikilinks.len(), 2);
    assert_eq!(parsed.wikilinks[0].target, "other-note");
    assert_eq!(parsed.wikilinks[0].alias, None);
    assert_eq!(parsed.wikilinks[1].target, "domain/note");
    assert_eq!(parsed.wikilinks[1].alias, Some("Display Name".to_string()));
}

#[test]
fn test_wikilink_with_section() {
    let content = "See [[note#Introduction]] for details.\n";
    let mut parser = TreeSitterParser::new().unwrap();
    let parsed = parser.parse(content).unwrap();
    assert_eq!(parsed.wikilinks.len(), 1);
    assert_eq!(parsed.wikilinks[0].target, "note");
    assert_eq!(parsed.wikilinks[0].section, Some("Introduction".to_string()));
}

#[test]
fn test_tags_not_in_code_blocks() {
    let content = r#"Normal text with #real-tag.

```rust
// This #fake-tag should be ignored
```

After code: #another-real.
"#;
    let mut parser = TreeSitterParser::new().unwrap();
    let parsed = parser.parse(content).unwrap();
    assert!(!parsed.tags.contains(&"fake-tag".to_string()));
    assert!(parsed.tags.contains(&"real-tag".to_string()));
    assert!(parsed.tags.contains(&"another-real".to_string()));
}

#[test]
fn test_multiple_headings() {
    let content = r#"# Main Title

## Section 1

### Subsection

## Section 2
"#;
    let mut parser = TreeSitterParser::new().unwrap();
    let parsed = parser.parse(content).unwrap();
    assert_eq!(parsed.title, "Main Title");
    assert_eq!(parsed.headings.len(), 4);
    assert_eq!(parsed.headings[1].level, 2);
    assert_eq!(parsed.headings[1].text, "Section 1");
    assert_eq!(parsed.headings[2].level, 3);
    assert_eq!(parsed.headings[2].text, "Subsection");
}

#[test]
fn test_no_title() {
    let content = "Some content without a heading.\n";
    let mut parser = TreeSitterParser::new().unwrap();
    let parsed = parser.parse(content).unwrap();
    assert_eq!(parsed.title, "");
    assert_eq!(parsed.headings.len(), 0);
}

#[test]
fn heading_lines_and_closing_hashes() {
    let mut parser = TreeSitterParser::new().unwrap();
    let parsed = parser.parse("intro\n## Part two ##\n#######  too deep\n#NoSpace\n").unwrap();
    assert_eq!(parsed.headings.len(), 1);
    assert_eq!(parsed.headings[0].level, 2);
    assert_eq!(parsed.headings[0].text, "Part two");
    assert_eq!(parsed.headings[0].line, 2);
    assert_eq!(parsed.title, "");
}

#[test]
fn title_is_first_level_one_heading() {
    let mut parser = TreeSitterParser::new().unwrap();
    let parsed = parser.parse("## Intro\n# Real Title\n# Later\n").unwrap();
    assert_eq!(parsed.title, "Real Title");
}

#[test]
fn headings_in_fences_are_skipped() {
    let mut parser = TreeSitterParser::new().unwrap();
    let parsed = parser.parse("```\n# not a heading\n```\n# Heading\n").unwrap();
    assert_eq!(parsed.headings.len(), 1);
    assert_eq!(parsed.headings[0].line, 4);
}

#[test]
fn wikilink_positions_and_code() {
    let mut parser = TreeSitterParser::new().unwrap();
    let parsed = parser.parse("x\nab [[t]] `[[code]]`\n```\n[[fenced]]\n```\n").unwrap();
    assert_eq!(parsed.wikilinks.len(), 1);
    assert_eq!(parsed.wikilinks[0].target, "t");
    assert_eq!(parsed.wikilinks[0].line, 2);
    assert_eq!(parsed.wikilinks[0].column, 3);
}

#[test]
fn body_keeps_content() {
    let mut parser = TreeSitterParser::new().unwrap();
    let content = "line one\nline two";
    assert_eq!(parser.parse(content).unwrap().body, content);
}

#[test]
fn wikilink_with_section_and_alias() {
    let mut parser = TreeSitterParser::new().unwrap();
    let parsed = parser.parse("[[a/b#Part|Shown]] [[|x]] [[]]").unwrap();
    assert_eq!(parsed.wikilinks.len(), 1);
    assert_eq!(parsed.wikilinks[0].target, "a/b");
    assert_eq!(parsed.wikilinks[0].section, Some("Part".to_string()));
    assert_eq!(parsed.wikilinks[0].alias, Some("Shown".to_string()));
}

#[test]
fn heading_text_is_trimmed_of_unicode_space() {
    let mut parser = TreeSitterParser::new().unwrap();
    let parsed = parser.parse("#\u{A0}Title\u{A0}\u{C}\n").unwrap();
    assert_eq!(parsed.headings.len(), 1);
    assert_eq!(parsed.headings[0].text, "Title");
    assert_eq!(parsed.headings[0].text, parsed.headings[0].text.trim());
}

#[test]
fn code_spans_of_two_backticks_hide_links() {
    let mut parser = TreeSitterParser::new().unwrap();
    let parsed = parser.parse("`` [[hidden]] #a `` [[shown]]").unwrap();
    assert_eq!(parsed.wikilinks.len(), 1);
    assert_eq!(parsed.wikilinks[0].target, "shown");
    assert!(parsed.tags.is_empty());
}
