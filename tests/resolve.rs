use kbase::resolve::resolve_target;

fn setup_vault() -> Vec<String> {
    let notes = vec![
        "lucene/search-flow.md",
        "lucene/codecs.md",
        "lucene/internals/codec-details.md",
        "datafusion/query-execution.md",
        "datafusion/01-home.md",
        "lucene/01-home.md",
        "glossary.md",
    ];
    notes.iter().map(|s| s.to_string()).collect()
}

#[test]
fn test_bare_name_same_domain() {
    let all_notes = setup_vault();
    let result = resolve_target("codecs", "lucene/search-flow.md", &all_notes);
    assert_eq!(result, Some("lucene/codecs.md".to_string()));
}

#[test]
fn test_bare_name_cross_domain_fails() {
    let all_notes = setup_vault();
    let result = resolve_target("query-execution", "lucene/search-flow.md", &all_notes);
    assert_eq!(result, None);
}

#[test]
fn test_bare_name_same_domain_priority() {
    let all_notes = setup_vault();
    let result = resolve_target("01-home", "lucene/search-flow.md", &all_notes);
    assert_eq!(result, Some("lucene/01-home.md".to_string()));
}

#[test]
fn test_bare_name_from_root_no_cross_domain() {
    let all_notes = setup_vault();
    let result = resolve_target("01-home", "glossary.md", &all_notes);
    assert_eq!(result, None);
}

#[test]
fn test_bare_name_not_found() {
    let all_notes = setup_vault();
    let result = resolve_target("nonexistent", "lucene/search-flow.md", &all_notes);
    assert_eq!(result, None);
}

#[test]
fn test_absolute_path() {
    let all_notes = setup_vault();
    let result = resolve_target("lucene/codecs", "lucene/search-flow.md", &all_notes);
    assert_eq!(result, Some("lucene/codecs.md".to_string()));
    let result = resolve_target("datafusion/query-execution", "lucene/search-flow.md", &all_notes);
    assert_eq!(result, Some("datafusion/query-execution.md".to_string()));
}

#[test]
fn test_relative_path() {
    let all_notes = setup_vault();
    let result = resolve_target("internals/codec-details", "lucene/search-flow.md", &all_notes);
    assert_eq!(result, Some("lucene/internals/codec-details.md".to_string()));
}

#[test]
fn test_path_style_not_found() {
    let all_notes = setup_vault();
    let result = resolve_target("nonexistent/note", "lucene/search-flow.md", &all_notes);
    assert_eq!(result, None);
}

#[test]
fn test_root_level_note() {
    let all_notes = setup_vault();
    let result = resolve_target("glossary", "lucene/search-flow.md", &all_notes);
    assert_eq!(result, Some("glossary.md".to_string()));
}

#[test]
fn test_root_level_source() {
    let all_notes = setup_vault();
    let result = resolve_target("codecs", "glossary.md", &all_notes);
    assert_eq!(result, None);
}

#[test]
fn path_style_prefers_root_over_domain_relative() {
    let all_notes = vec!["a/b.md".to_string(), "x/a/b.md".to_string()];
    assert_eq!(resolve_target("a/b", "x/note.md", &all_notes), Some("a/b.md".to_string()));
    let only_relative = vec!["x/a/b.md".to_string()];
    assert_eq!(resolve_target("a/b", "x/note.md", &only_relative), Some("x/a/b.md".to_string()));
}

#[test]
fn resolution_is_repeatable() {
    let all_notes = setup_vault();
    let first = resolve_target("codecs", "lucene/search-flow.md", &all_notes);
    let second = resolve_target("codecs", "lucene/search-flow.md", &all_notes);
    assert_eq!(first, second);
}

#[test]
fn domain_of_nested_source_is_first_segment() {
    let all_notes = vec!["lucene/codecs.md".to_string()];
    let result = resolve_target("codecs", "lucene/internals/codec-details.md", &all_notes);
    assert_eq!(result, Some("lucene/codecs.md".to_string()));
}

#[test]
fn empty_collection_resolves_nothing() {
    let all_notes: Vec<String> = Vec::new();
    assert_eq!(resolve_target("x", "a/b.md", &all_notes), None);
}
