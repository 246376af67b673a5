use kbase::tags::{extract_tags, TagIndex, TagIndexBuilder};

#[test]
fn test_extract_simple_tags() {
    let content = "This is a #test and #example note.";
    let tags = extract_tags(content);
    assert_eq!(tags, vec!["example", "test"]);
}

#[test]
fn test_skip_code_blocks() {
    let content = "This has #real-tag outside code.

```rust
// This has #fake-tag inside code
let x = \"#also-fake\";
```

And #another-real tag after.";
    let tags = extract_tags(content);
    assert_eq!(tags, vec!["another-real", "real-tag"]);
}

#[test]
fn test_various_tag_formats() {
    let content = "Tags: #year2024 #rust_lang #deep-dive #123test #mix4d2";
    let tags = extract_tags(content);
    assert_eq!(tags, vec!["123test", "deep-dive", "mix4d2", "rust_lang", "year2024"]);
}

#[test]
fn test_no_tags() {
    let content = "This has no tags at all.";
    let tags = extract_tags(content);
    assert!(tags.is_empty());
}

#[test]
fn test_ignores_numeric_tags() {
    let content = "PR #20298 and issue #123 but keep #bug-report and #v1_2_3";
    let tags = extract_tags(content);
    assert_eq!(tags, vec!["bug-report", "v1_2_3"]);
}

#[test]
fn tags_are_sorted_and_unique() {
    let tags = extract_tags("#b #a #b #c #a");
    assert_eq!(tags, vec!["a", "b", "c"]);
}

#[test]
fn tags_in_inline_code_are_skipped() {
    let tags = extract_tags("see `#notareal` but #real");
    assert_eq!(tags, vec!["real"]);
}

#[test]
fn unmatched_backtick_does_not_hide_tags() {
    let tags = extract_tags("a ` lone backtick then #seen");
    assert_eq!(tags, vec!["seen"]);
}

#[test]
fn tag_ends_at_punctuation() {
    let tags = extract_tags("#one, #two.");
    assert_eq!(tags, vec!["one", "two"]);
}

#[test]
fn heading_marker_is_not_a_tag() {
    let tags = extract_tags("# Title\n## Section #inner");
    assert_eq!(tags, vec!["inner"]);
}

#[test]
fn empty_content_has_no_tags() {
    assert!(extract_tags("").is_empty());
}

fn create_test_index() -> TagIndex {
    let mut builder = TagIndex::builder();
    builder.add("rust", "rust/basics.md");
    builder.add("rust", "rust/advanced.md");
    builder.add("rust", "rust/ownership.md");
    builder.add("wip", "rust/basics.md");
    builder.add("wip", "lucene/study.md");
    builder.add("deep-dive", "lucene/internals.md");
    builder.build()
}

#[test]
fn test_from_tag_map_builds_index() {
    let index = create_test_index();
    assert_eq!(
        index.notes_with_tag("rust"),
        vec!["rust/advanced.md", "rust/basics.md", "rust/ownership.md"]
    );
    assert_eq!(index.notes_with_tag("wip"), vec!["lucene/study.md", "rust/basics.md"]);
    assert_eq!(index.notes_with_tag("nonexistent"), Vec::<String>::new());
}

#[test]
fn test_all_tags_sorted_by_name() {
    let index = create_test_index();
    let by_name = index.all_tags();
    assert_eq!(
        by_name,
        vec![("deep-dive".into(), 1), ("rust".into(), 3), ("wip".into(), 2)]
    );
}

#[test]
fn test_all_tags_sorted_by_count() {
    let index = create_test_index();
    let by_count = index.all_tags_by_count();
    assert_eq!(
        by_count,
        vec![("rust".into(), 3), ("wip".into(), 2), ("deep-dive".into(), 1)]
    );
}

#[test]
fn test_filter_by_single_domain() {
    let index = create_test_index();
    let filtered = index.filter_by_domains(&vec!["rust".to_string()]);
    assert_eq!(filtered.len(), 2);
    assert_eq!(
        filtered.get("rust").unwrap(),
        &vec!["rust/advanced.md", "rust/basics.md", "rust/ownership.md"]
    );
    assert_eq!(filtered.get("wip").unwrap(), &vec!["rust/basics.md"]);
    assert!(filtered.get("deep-dive").is_none());
}

#[test]
fn test_filter_by_multiple_domains() {
    let index = create_test_index();
    let filtered = index.filter_by_domains(&vec!["rust".to_string(), "lucene".to_string()]);
    assert_eq!(filtered.len(), 3);
    assert!(filtered.contains_key("rust"));
    assert!(filtered.contains_key("wip"));
    assert!(filtered.contains_key("deep-dive"));
}

#[test]
fn test_filter_by_nonexistent_domain() {
    let index = create_test_index();
    let filtered = index.filter_by_domains(&vec!["nonexistent".to_string()]);
    assert!(filtered.is_empty());
}

#[test]
fn test_empty_index() {
    let index = TagIndex::builder().build();
    assert!(index.all_tags().is_empty());
    assert!(index.all_tags_by_count().is_empty());
    assert!(index.notes_with_tag("any").is_empty());
    assert!(index.filter_by_domains(&vec!["any".to_string()]).is_empty());
}

#[test]
fn test_save_and_load_json() {
    let saved = create_test_index();
    let text = saved.to_json().unwrap();
    let loaded = TagIndex::from_json(&text).unwrap();
    assert_eq!(loaded.all_tags(), saved.all_tags());
    assert_eq!(loaded.notes_with_tag("rust"), saved.notes_with_tag("rust"));
}

#[test]
fn json_form_is_object_of_sorted_arrays() {
    let mut builder = TagIndex::builder();
    builder.add("x", "b/two.md");
    builder.add("x", "a/one.md");
    let text = builder.build().to_json().unwrap();
    assert_eq!(text, "{\n  \"x\": [\n    \"a/one.md\",\n    \"b/two.md\"\n  ]\n}");
}

#[test]
fn malformed_json_is_an_error() {
    let result = TagIndex::from_json("not json");
    assert!(matches!(result, Err(kbase::json::IndexError::Malformed(_))));
    let result = TagIndex::from_json("{\"x\": 3}");
    assert!(matches!(result, Err(kbase::json::IndexError::Malformed(_))));
}

#[test]
fn from_tag_map_sorts_dedups_and_merges() {
    let index = TagIndex::from_tag_map(vec![
        ("t".to_string(), vec!["b.md".to_string(), "a.md".to_string(), "b.md".to_string()]),
        ("t".to_string(), vec!["c.md".to_string()]),
    ]);
    assert_eq!(index.notes_with_tag("t"), vec!["a.md", "b.md", "c.md"]);
    assert_eq!(index.all_tags(), vec![("t".to_string(), 3)]);
}

#[test]
fn count_ties_keep_name_order() {
    let mut builder = TagIndex::builder();
    builder.add("b", "n1.md");
    builder.add("a", "n2.md");
    builder.add("c", "n1.md");
    builder.add("c", "n2.md");
    let index = builder.build();
    assert_eq!(
        index.all_tags_by_count(),
        vec![("c".to_string(), 2), ("a".to_string(), 1), ("b".to_string(), 1)]
    );
}

#[test]
fn root_notes_match_no_domain() {
    let mut builder = TagIndex::builder();
    builder.add("t", "root.md");
    let index = builder.build();
    assert!(index.filter_by_domains(&vec!["root.md".to_string(), "".to_string()]).is_empty());
}

#[test]
fn default_builder_is_empty() {
    let index = TagIndexBuilder::default().build();
    assert!(index.all_tags().is_empty());
}

#[test]
fn tags_need_no_leading_blank() {
    assert_eq!(extract_tags("(#a) x#y **#tag** #b,#c"), vec!["a", "b", "c", "tag", "y"]);
    assert_eq!(extract_tags("##a"), vec!["a"]);
}

#[test]
fn multi_backtick_spans_hide_tags() {
    assert!(extract_tags("`` #a ``").is_empty());
    assert_eq!(extract_tags("``a`b`` #c"), vec!["c"]);
    assert_eq!(extract_tags("`a ``#b"), vec!["b"]);
    assert_eq!(extract_tags("x ``` #x ``` and `` #y `` and #z"), vec!["z"]);
}

#[test]
fn empty_tag_list_keeps_the_tag() {
    let index = TagIndex::from_tag_map(vec![("t".to_string(), Vec::new())]);
    assert_eq!(index.all_tags(), vec![("t".to_string(), 0)]);
    assert!(index.notes_with_tag("t").is_empty());
    assert_eq!(index.to_json().unwrap(), "{\n  \"t\": []\n}");
}

#[test]
fn tilde_fences_hide_tags() {
    assert_eq!(extract_tags("~~~\n#hidden\n```\n#still\n~~~\n#shown"), vec!["shown"]);
}
