use notevault::error::AppError;
use notevault::indexer::{IndexStats, Indexer};
use notevault::vault::{
    count_words, describe_file, get_vault_name, is_hidden, is_markdown, require_absent,
    require_file, require_folder, require_movable, require_present, sort_entries, FileEntry,
    VaultFs,
};

fn entry(name: &str, dir: bool) -> FileEntry {
    FileEntry {
        name: name.to_string(),
        path: name.to_string(),
        is_directory: dir,
        extension: None,
        size: 0,
        created: None,
        modified: None,
        children: None,
    }
}

fn parts(names: &[&str]) -> Vec<String> {
    names.iter().map(|n| n.to_string()).collect()
}

#[test]
fn path_escape_is_refused() {
    let fs = VaultFs::new("/tmp/x/vault".to_string());
    // ../../etc/passwd: the nearest ancestor that exists is /tmp.
    let r = fs.resolve_path("../../etc/passwd", "/tmp", &parts(&["etc", "passwd"]), "/tmp/x/vault");
    match r {
        Err(AppError::InvalidPath(m)) => assert_eq!(m, "Path is outside vault"),
        _ => panic!("a path outside the vault was accepted"),
    }
    let sibling = fs.resolve_path("x", "/tmp/x/vault-other", &parts(&["x"]), "/tmp/x/vault");
    assert!(matches!(sibling, Err(AppError::InvalidPath(_))));
    let existing = fs.resolve_path("../secret", "/tmp/x/secret", &Vec::new(), "/tmp/x/vault");
    assert!(matches!(existing, Err(AppError::InvalidPath(_))));
}

#[test]
fn a_step_back_below_a_missing_directory_is_refused() {
    let fs = VaultFs::new("/v".to_string());
    let r = fs.resolve_path(
        "ghost/../../outside.txt",
        "/v",
        &parts(&["ghost", "..", "..", "outside.txt"]),
        "/v",
    );
    assert!(matches!(r, Err(AppError::InvalidPath(m)) if m == "Path is outside vault"));
    let inside = fs.resolve_path("ghost/../a.md", "/v", &parts(&["ghost", "..", "a.md"]), "/v");
    assert!(matches!(inside, Err(AppError::InvalidPath(_))));
    assert!(matches!(fs.candidate_path("/v", &parts(&[".."])), Err(AppError::InvalidPath(_))));
}

#[test]
fn path_inside_is_resolved() {
    let fs = VaultFs::new("/vault".to_string());
    let r = fs.resolve_path("/notes/a.md", "/vault/notes/a.md", &Vec::new(), "/vault");
    assert_eq!(r.ok(), Some("/vault/notes/a.md".to_string()));
    assert_eq!(fs.full_path("//a.md"), "/vault/a.md");
    assert_eq!(fs.vault_path(), "/vault");
}

#[test]
fn a_path_below_missing_directories_is_resolved() {
    let fs = VaultFs::new("/vault".to_string());
    let r = fs.resolve_path("a/b/n.md", "/vault", &parts(&["a", "b", "n.md"]), "/vault");
    assert_eq!(r.ok(), Some("/vault/a/b/n.md".to_string()));
    // The root is reached through a link: the ancestor is canonical, as the root is.
    let linked = VaultFs::new("/link".to_string());
    let r = linked.resolve_path("a/b/n.md", "/real/vault", &parts(&["a", "b", "n.md"]), "/real/vault");
    assert_eq!(r.ok(), Some("/link/a/b/n.md".to_string()));
    assert_eq!(
        linked.candidate_path("/real/vault", &parts(&["a", "n.md"])).ok(),
        Some("/real/vault/a/n.md".to_string())
    );
    assert_eq!(linked.candidate_path("/real/vault", &Vec::new()).ok(), Some("/real/vault".to_string()));
}

#[test]
fn vault_name_is_the_last_component() {
    assert_eq!(get_vault_name("/home/user/My Vault"), "My Vault");
    assert_eq!(get_vault_name("/"), "Untitled Vault");
}

#[test]
fn entries_are_listed_directories_first_then_by_name() {
    let sorted = sort_entries(vec![
        entry("b.md", false),
        entry("Zeta", true),
        entry("A.md", false),
        entry("alpha", true),
        entry("c.md", false),
    ]);
    let names: Vec<&str> = sorted.iter().map(|e| e.name.as_str()).collect();
    assert_eq!(names, vec!["alpha", "Zeta", "A.md", "b.md", "c.md"]);
}

#[test]
fn hidden_and_markdown_names() {
    assert!(is_hidden(".git"));
    assert!(!is_hidden("a.md"));
    assert!(!is_hidden(""));
    assert!(is_markdown("dir/a.md"));
    assert!(!is_markdown("dir/a.txt"));
    assert!(!is_markdown("dir/.md"));
}

#[test]
fn words_and_characters_are_counted() {
    assert_eq!(count_words("  one two\n\tthree  "), 3);
    assert_eq!(count_words(""), 0);
    assert_eq!(count_words("a\u{a0}b\u{3000}c\u{200b}d\u{85}e\u{2028}f"), 5);
    assert_eq!(count_words("   "), 0);
    let info = describe_file(
        "a.md".to_string(),
        "a.md".to_string(),
        9,
        None,
        Some("t".to_string()),
        Some("h\u{e9}llo w\u{f6}rld".to_string()),
    );
    assert!(info.is_markdown);
    assert_eq!(info.word_count, Some(2));
    assert_eq!(info.character_count, Some(11));
    assert_eq!(info.size, 9);
    let other = describe_file("a.png".to_string(), "a.png".to_string(), 1, None, None, None);
    assert!(!other.is_markdown);
    assert_eq!(other.word_count, None);
    assert_eq!(other.character_count, None);
}

#[test]
fn each_rule_gives_its_error() {
    assert!(require_present("a", true).is_ok());
    assert!(matches!(require_present("a", false), Err(AppError::FileNotFound(p)) if p == "a"));
    assert!(require_absent("a", false).is_ok());
    assert!(matches!(require_absent("a", true), Err(AppError::AlreadyExists(p)) if p == "a"));
    assert!(require_file("a", true, false).is_ok());
    assert!(matches!(require_file("a", false, false), Err(AppError::FileNotFound(_))));
    assert!(matches!(require_file("a", true, true), Err(AppError::InvalidPath(_))));
    assert!(require_folder("a", true, true).is_ok());
    assert!(matches!(require_folder("a", true, false), Err(AppError::InvalidPath(_))));
    assert!(matches!(require_folder("a", false, true), Err(AppError::FileNotFound(_))));
    assert!(require_movable("a", "b", true, false).is_ok());
    assert!(matches!(require_movable("a", "b", false, false), Err(AppError::FileNotFound(p)) if p == "a"));
    assert!(matches!(require_movable("a", "b", true, true), Err(AppError::AlreadyExists(p)) if p == "b"));
}

#[test]
fn error_messages() {
    assert_eq!(AppError::Io("x".to_string()).message(), "IO error: x");
    assert_eq!(AppError::Database("x".to_string()).message(), "Database error: x");
    assert_eq!(AppError::Serialization("x".to_string()).message(), "Serialization error: x");
    assert_eq!(AppError::Yaml("x".to_string()).message(), "YAML error: x");
    assert_eq!(AppError::VaultNotOpen.message(), "Vault not open");
    assert_eq!(AppError::FileNotFound("a.md".to_string()).message(), "File not found: a.md");
    assert_eq!(AppError::InvalidPath("p".to_string()).message(), "Invalid path: p");
    assert_eq!(AppError::AlreadyExists("p".to_string()).message(), "Already exists: p");
    assert_eq!(AppError::Custom("plain".to_string()).message(), "plain");
}

#[test]
fn a_file_becomes_a_note_with_links_tags_and_headings() {
    let indexer = Indexer::new();
    let note = indexer.index_file(
        "/vault/sub/A.md",
        "/vault",
        "# Top\nLinks to [[B]] and [[C|see]]. #tag",
        "2024-01-01T00:00:00+00:00".to_string(),
        "2024-01-02T00:00:00+00:00".to_string(),
    );
    assert_eq!(note.path, "sub/A.md");
    assert_eq!(note.title, "Top");
    assert_eq!(note.content, "# Top\nLinks to [[B]] and [[C|see]]. #tag");
    assert_eq!(note.frontmatter, None);
    assert_eq!(note.created_at, "2024-01-01T00:00:00+00:00");
    assert_eq!(note.modified_at, "2024-01-02T00:00:00+00:00");
    assert_eq!(
        note.links,
        vec![("B".to_string(), None), ("C".to_string(), Some("see".to_string()))]
    );
    assert_eq!(note.tags, vec!["tag".to_string()]);
    assert_eq!(note.headings, vec![(1, "Top".to_string(), 1)]);
}

#[test]
fn indexing_twice_gives_the_same_note() {
    let indexer = Indexer::new();
    let text = "---\ntitle: Rust async\n---\nThe scheduler. [[Tokio]] #rust";
    let a = indexer.index_file("/v/r.md", "/v", text, "c".to_string(), "m1".to_string());
    let b = indexer.index_file("/v/r.md", "/v", text, "c".to_string(), "m2".to_string());
    assert_eq!(a.path, b.path);
    assert_eq!(a.title, "Rust async");
    assert_eq!(a.title, b.title);
    assert_eq!(a.content, b.content);
    assert_eq!(a.frontmatter, b.frontmatter);
    assert_eq!(a.links, b.links);
    assert_eq!(a.tags, b.tags);
    assert_eq!(a.headings, b.headings);
}

#[test]
fn title_falls_back_to_the_file_stem() {
    let indexer = Indexer::new();
    let note = indexer.index_file("/vault/Plain Note.md", "/vault", "no heading", "c".to_string(), "m".to_string());
    assert_eq!(note.title, "Plain Note");
    assert_eq!(indexer.get_relative_path("/elsewhere/x.md", "/vault"), "/elsewhere/x.md");
    assert_eq!(indexer.get_relative_path("/vault/a/b/c.md", "/vault"), "a/b/c.md");
    let sep = std::path::MAIN_SEPARATOR;
    let file = format!("{0}vault{0}sub{0}n.md", sep);
    let root = format!("{0}vault", sep);
    assert_eq!(indexer.get_relative_path(&file, &root), "sub/n.md");
}

#[test]
fn timestamps_fall_back() {
    let indexer = Indexer::new();
    let now = "now".to_string();
    assert_eq!(
        indexer.timestamps(Some("m".to_string()), Some("c".to_string()), now.clone()),
        ("m".to_string(), "c".to_string())
    );
    assert_eq!(
        indexer.timestamps(Some("m".to_string()), None, now.clone()),
        ("m".to_string(), "m".to_string())
    );
    assert_eq!(indexer.timestamps(None, None, now), ("now".to_string(), "now".to_string()));
}

#[test]
fn walk_rules_and_orphans() {
    let indexer = Indexer::new();
    assert!(indexer.should_index("notes/a.md"));
    assert!(!indexer.should_index(".obsidian/a.md"));
    assert!(!indexer.should_index("notes/.hidden/a.md"));
    assert!(!indexer.should_index("notes/a.txt"));
    let indexed =
        vec![("a.md".to_string(), true), ("b.md".to_string(), false), ("c.md".to_string(), false)];
    assert_eq!(indexer.orphans(&indexed), vec!["b.md".to_string(), "c.md".to_string()]);
    let mut stats = IndexStats::new();
    stats.record(true);
    stats.record(true);
    stats.record(false);
    assert_eq!(stats.files_indexed, 2);
    assert_eq!(stats.errors, 1);
}
