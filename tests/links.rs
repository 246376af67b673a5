use kbase::indexing::build_indexes;
use kbase::links::{should_index_wikilink, LinkIndex};
use kbase::resolve::resolve_target;
use kbase::tags::TagIndex;

#[test]
fn test_should_index_wikilink() {
    assert!(should_index_wikilink("note"));
    assert!(should_index_wikilink("domain/note"));
    assert!(should_index_wikilink("note.md"));
    assert!(should_index_wikilink("domain/note.md"));
    assert!(!should_index_wikilink("image.png"));
    assert!(!should_index_wikilink("diagram.svg"));
    assert!(!should_index_wikilink("photo.jpg"));
    assert!(!should_index_wikilink("folder/screenshot.png"));
}

#[test]
fn test_from_maps_sorts_and_dedups() {
    let forward = vec![(
        "a.md".to_string(),
        vec!["c.md".to_string(), "b.md".to_string(), "c.md".to_string()],
    )];
    let backward: Vec<(String, Vec<String>)> = Vec::new();
    let index = LinkIndex::from_maps(forward, backward);
    assert_eq!(index.get_forward("a.md").unwrap(), &vec!["b.md".to_string(), "c.md".to_string()]);
}

fn collection() -> Vec<(String, String)> {
    vec![
        ("a/one.md".to_string(), "#x [[two]]".to_string()),
        ("a/two.md".to_string(), "no tags".to_string()),
        ("b/two.md".to_string(), "no tags".to_string()),
    ]
}

#[test]
fn same_domain_collection_scenario() {
    let notes = collection();
    let known: Vec<String> = notes.iter().map(|n| n.0.clone()).collect();
    assert_eq!(resolve_target("two", "a/one.md", &known), Some("a/two.md".to_string()));

    let (tags, links, unresolved) = build_indexes(&notes);
    assert_eq!(tags.all_tags(), vec![("x".to_string(), 1)]);
    assert_eq!(tags.notes_with_tag("x"), vec!["a/one.md"]);
    assert_eq!(links.get_forward("a/one.md").unwrap(), &vec!["a/two.md".to_string()]);
    assert_eq!(links.get_backward("a/two.md").unwrap(), &vec!["a/one.md".to_string()]);
    assert!(links.get_forward("b/two.md").is_none());
    assert!(links.get_backward("b/two.md").is_none());
    assert_eq!(unresolved, 0);
}

#[test]
fn missing_target_scenario() {
    let notes = vec![("a/one.md".to_string(), "see [[missing]]".to_string())];
    let known: Vec<String> = notes.iter().map(|n| n.0.clone()).collect();
    assert_eq!(resolve_target("missing", "a/one.md", &known), None);
    let (index, unresolved) = LinkIndex::build_from_vault(&notes);
    assert_eq!(unresolved, 1);
    assert!(index.get_forward("a/one.md").is_none());
    assert!(index.forward_entries().is_empty());
    assert!(index.backward_entries().is_empty());
}

#[test]
fn inline_code_tag_scenario() {
    let notes = vec![("n.md".to_string(), "`#notareal` and #real".to_string())];
    let index = TagIndex::build_from_vault(&notes);
    assert_eq!(index.all_tags(), vec![("real".to_string(), 1)]);
}

#[test]
fn attachments_are_not_counted() {
    let notes = vec![("a/one.md".to_string(), "![[pic.png]] [[two.md]]".to_string())];
    let (index, unresolved) = LinkIndex::build_from_vault(&notes);
    assert_eq!(unresolved, 1);
    assert!(index.get_forward("a/one.md").is_none());
}

#[test]
fn forward_and_backward_agree() {
    let notes = vec![
        ("a/one.md".to_string(), "[[two]] [[two]] [[b/three]]".to_string()),
        ("a/two.md".to_string(), "[[one]]".to_string()),
        ("b/three.md".to_string(), "[[a/one]]".to_string()),
    ];
    let (index, unresolved) = LinkIndex::build_from_vault(&notes);
    assert_eq!(unresolved, 0);
    assert_eq!(
        index.get_forward("a/one.md").unwrap(),
        &vec!["a/two.md".to_string(), "b/three.md".to_string()]
    );
    assert_eq!(
        index.get_backward("a/one.md").unwrap(),
        &vec!["a/two.md".to_string(), "b/three.md".to_string()]
    );
    assert_eq!(index.get_backward("b/three.md").unwrap(), &vec!["a/one.md".to_string()]);
}

#[test]
fn rebuilding_gives_identical_json() {
    let notes = collection();
    let (t1, l1, _) = build_indexes(&notes);
    let (t2, l2, _) = build_indexes(&notes);
    assert_eq!(t1.to_json().unwrap(), t2.to_json().unwrap());
    assert_eq!(l1.to_json().unwrap(), l2.to_json().unwrap());
    let t3 = TagIndex::build_from_vault(&notes);
    assert_eq!(t1.to_json().unwrap(), t3.to_json().unwrap());
}

#[test]
fn link_index_json_round_trip() {
    let (_, links, _) = build_indexes(&collection());
    let (forward, backward) = links.to_json().unwrap();
    let loaded = LinkIndex::from_json(&forward, &backward).unwrap();
    assert_eq!(loaded.get_forward("a/one.md"), links.get_forward("a/one.md"));
    assert_eq!(loaded.get_backward("a/two.md"), links.get_backward("a/two.md"));
    assert_eq!(forward, "{\n  \"a/one.md\": [\n    \"a/two.md\"\n  ]\n}");
}

#[test]
fn link_index_malformed_json() {
    assert!(LinkIndex::from_json("{}", "[").is_err());
}

#[test]
fn empty_lists_keep_their_entry() {
    let forward = vec![("a.md".to_string(), Vec::<String>::new())];
    let index = LinkIndex::from_maps(forward, Vec::new());
    assert_eq!(index.get_forward("a.md"), Some(&Vec::<String>::new()));
    assert_eq!(index.get_forward("b.md"), None);
    assert_eq!(index.get_backward("a.md"), None);
}
