use kbase::config::{Config, ConfigError, VaultConfig};
use kbase::vault::{
    first_heading_title, is_excluded_domain, is_metadata_file, line_number_width, outline, path_in_domain,
};

#[test]
fn excluded_domains() {
    assert!(is_excluded_domain(".git"));
    assert!(is_excluded_domain("_logs"));
    assert!(!is_excluded_domain("lucene"));
    assert!(!is_excluded_domain(""));
}

#[test]
fn metadata_files() {
    assert!(is_metadata_file("_description.md"));
    assert!(is_metadata_file("description.md"));
    assert!(is_metadata_file(".hidden.md"));
    assert!(!is_metadata_file("codecs.md"));
}

#[test]
fn domain_membership() {
    assert!(path_in_domain("lucene/codecs.md", "lucene"));
    assert!(!path_in_domain("lucene/codecs.md", "luc"));
    assert!(!path_in_domain("glossary.md", "glossary.md"));
    assert!(path_in_domain("lucene/internals/x.md", "lucene"));
}

#[test]
fn line_number_widths() {
    assert_eq!(line_number_width(0), 6);
    assert_eq!(line_number_width(999_999), 6);
    assert_eq!(line_number_width(1_000_000), 7);
    assert_eq!(line_number_width(12_345_678_901), 11);
}

#[test]
fn titles_from_first_lines() {
    assert_eq!(first_heading_title("intro\n  #  Spaced Title  \n"), Some("Spaced Title".to_string()));
    assert_eq!(first_heading_title("## Not level one\n#NoSpace\n"), None);
    let mut late = String::new();
    for _ in 0..20 {
        late.push_str("text\n");
    }
    late.push_str("# Too Late\n");
    assert_eq!(first_heading_title(&late), None);
}

#[test]
fn outline_indents_by_level() {
    let content = "# Search Flow\nbody\n## Phase 1\n### Step 1\n####### seven\n#tag\n";
    let lines = outline(content);
    assert_eq!(
        lines,
        vec![
            (1, "# Search Flow".to_string()),
            (3, "  ## Phase 1".to_string()),
            (4, "    ### Step 1".to_string()),
        ]
    );
}

fn config() -> Config {
    Config {
        active_vault: "main".to_string(),
        vaults: vec![
            ("main".to_string(), VaultConfig { path: "/notes".to_string() }),
            ("work".to_string(), VaultConfig { path: "/work".to_string() }),
        ],
    }
}

#[test]
fn active_vault_found() {
    let (name, vault) = config().get_active_vault().unwrap();
    assert_eq!(name, "main");
    assert_eq!(vault.path, "/notes");
}

#[test]
fn active_vault_missing() {
    let mut c = config();
    c.active_vault = "gone".to_string();
    assert_eq!(c.get_active_vault(), Err(ConfigError::ActiveVaultNotFound("gone".to_string())));
}

#[test]
fn set_active_vault_checks_name() {
    let mut c = config();
    assert_eq!(c.set_active_vault("work"), Ok(()));
    assert_eq!(c.active_vault, "work");
    assert_eq!(
        c.set_active_vault("nonexistent"),
        Err(ConfigError::VaultNotFound(
            "nonexistent".to_string(),
            vec!["main".to_string(), "work".to_string()]
        ))
    );
    assert_eq!(c.active_vault, "work");
}

#[test]
fn first_vault_becomes_active() {
    let mut c = Config { active_vault: "unset".to_string(), vaults: Vec::new() };
    c.add_vault("vault1", "/v1");
    assert_eq!(c.active_vault, "vault1");
    c.add_vault("vault2", "/v2");
    assert_eq!(c.active_vault, "vault1");
    c.add_vault("vault1", "/v1b");
    assert_eq!(c.find_vault("vault1"), Some(VaultConfig { path: "/v1b".to_string() }));
    assert_eq!(c.vaults.len(), 2);
}
