use ruplacer::directory_patcher::path_deduplicator::PathDeduplicator;
use ruplacer::directory_patcher::{has_wildcard, PatchAction, TypeRule};
use ruplacer::{DirectoryPatcher, Query, Settings};

fn written(action: PatchAction) -> String {
    match action {
        PatchAction::Write(patch) => patch.new_contents().to_string(),
        other => panic!("the file was to be written, not {:?}", other),
    }
}

#[test]
fn test_replace_old_by_new() {
    let settings = Settings::default();
    let mut patcher = DirectoryPatcher::new(&settings);
    let query = Query::simple("old", "new");
    let top = written(patcher.patch_file("top.txt", b"Top: old is nice\n", &query));
    assert!(top.contains("new"));
    assert!(!top.contains("old"));
    let foo = written(patcher.patch_file("a_dir/sub/foo.txt", b"Foo: old is nice\n", &query));
    assert!(foo.contains("new"));
    assert!(!foo.contains("old"));
}

#[test]
fn test_stats() {
    let settings = Settings::default();
    let mut patcher = DirectoryPatcher::new(&settings);
    let query = Query::simple("old", "new");
    patcher.patch_file("top.txt", b"Top: old is nice\nold\n", &query);
    patcher.patch_file("a_dir/sub/foo.txt", b"old old\n", &query);
    let stats = patcher.stats();
    assert!(stats.matching_files() > 1);
    assert!(stats.total_replacements() > 1);
}

#[test]
fn test_dry_run() {
    let settings = Settings {
        dry_run: true,
        ..Default::default()
    };
    let mut patcher = DirectoryPatcher::new(&settings);
    let query = Query::simple("old", "new");
    let action = patcher.patch_file("top.txt", b"Top: old is nice\n", &query);
    match action {
        PatchAction::Keep(patch) => {
            assert_eq!(patch.new_contents(), "Top: new is nice\n");
            assert_eq!(patch.num_replacements(), 1);
        }
        other => panic!("a dry run writes nothing, but the action was {:?}", other),
    }
    let stats = patcher.stats();
    assert_eq!(stats.matching_files(), 1);
    assert_eq!(stats.matching_lines(), 1);
    assert_eq!(stats.total_replacements(), 1);
}

#[test]
fn test_skip_non_utf8_files() {
    let settings = Settings::default();
    let mut patcher = DirectoryPatcher::new(&settings);
    let query = Query::simple("old", "new");
    patcher.patch_file("top.txt", b"old\n", &query);
    let action = patcher.patch_file("foo.latin1", b"caf\xef\n", &query);
    assert!(matches!(action, PatchAction::Skip));
    let action = patcher.patch_file("bar.latin1", b"old caf\xef\n", &query);
    assert!(matches!(action, PatchAction::Skip));
    let stats = patcher.current_stats();
    assert_eq!(stats.matching_files(), 1);
    assert_eq!(stats.matching_lines(), 1);
    assert_eq!(stats.total_replacements(), 1);
}

#[test]
fn test_two_matching_files_add_up() {
    let settings = Settings::default();
    let mut patcher = DirectoryPatcher::new(&settings);
    let query = Query::simple("old", "new");
    patcher.patch_file("one.txt", b"this is old\n", &query);
    patcher.patch_file("two.txt", b"old and old\n", &query);
    patcher.patch_file("three.txt", b"nothing here\n", &query);
    let stats = patcher.stats();
    assert_eq!(stats.matching_files(), 2);
    assert_eq!(stats.total_replacements(), 3);
    assert_eq!(stats.matching_lines(), 2);
}

#[test]
fn test_file_without_match_is_written_unchanged() {
    let settings = Settings::default();
    let mut patcher = DirectoryPatcher::new(&settings);
    let query = Query::simple("old", "new");
    let contents = "nothing\r\nto see\n";
    let action = patcher.patch_file("a.txt", contents.as_bytes(), &query);
    assert_eq!(written(action), contents);
    assert_eq!(patcher.stats().matching_files(), 0);
}

#[test]
fn test_select_file_types() {
    let settings = Settings {
        selected_file_types: vec!["py".to_string()],
        ..Default::default()
    };
    let patcher = DirectoryPatcher::new(&settings);
    let rules = patcher.type_rules();
    assert_eq!(rules.len(), 1);
    assert!(matches!(&rules[0], TypeRule::Select(name) if name == "py"));
}

#[test]
fn test_ignore_file_types() {
    let settings = Settings {
        ignored_file_types: vec!["py".to_string()],
        ..Default::default()
    };
    let patcher = DirectoryPatcher::new(&settings);
    let rules = patcher.type_rules();
    assert_eq!(rules.len(), 1);
    assert!(matches!(&rules[0], TypeRule::Negate(name) if name == "py"));
}

#[test]
fn test_globs_get_types_of_their_own() {
    let settings = Settings {
        selected_file_types: vec!["*.txt".to_string(), "rust".to_string(), "a*".to_string()],
        ignored_file_types: vec!["py".to_string(), "*.bak".to_string()],
        ..Default::default()
    };
    let patcher = DirectoryPatcher::new(&settings);
    let rules: Vec<String> = patcher
        .type_rules()
        .iter()
        .map(|rule| match rule {
            TypeRule::Add { name, glob } => format!("add {} {}", name, glob),
            TypeRule::Select(name) => format!("select {}", name),
            TypeRule::Negate(name) => format!("negate {}", name),
        })
        .collect();
    assert_eq!(
        rules,
        vec![
            "add type0 *.txt",
            "select type0",
            "select rust",
            "add type1 a*",
            "select type1",
            "negate py",
            "add type2 *.bak",
            "negate type2",
        ]
    );
}

#[test]
fn test_can_replace_hidden_files() {
    let settings = Settings::default();
    assert!(DirectoryPatcher::new(&settings).skips_hidden());
    let settings = Settings {
        hidden: true,
        ..Default::default()
    };
    assert!(!DirectoryPatcher::new(&settings).skips_hidden());
}

#[test]
fn test_can_replace_ignored_files() {
    let settings = Settings::default();
    assert!(DirectoryPatcher::new(&settings).respects_ignore_files());
    let settings = Settings {
        ignored: true,
        ..Default::default()
    };
    assert!(!DirectoryPatcher::new(&settings).respects_ignore_files());
}

#[test]
fn test_each_path_is_fresh_once() {
    let mut dedup = PathDeduplicator::new();
    assert!(dedup.insert_path(b"/data/top.txt"));
    assert!(dedup.insert_path(b"/data/a_dir/sub/foo.txt"));
    assert!(!dedup.insert_path(b"/data/top.txt"));
    assert!(dedup.insert_path(b"/data/top.txt.bak"));
    assert!(dedup.insert_path(b"/data"));
    assert!(!dedup.insert_path(b"/data/a_dir/sub/foo.txt"));
    assert!(!dedup.insert_path(b"/data"));
    assert!(dedup.insert_path(b""));
    assert!(!dedup.insert_path(b""));
    let mut other = PathDeduplicator::default();
    assert!(other.insert_path(b"/data/top.txt"));
}

#[test]
fn test_skip_hidden_and_ignored_by_default() {
    let settings = Settings::default();
    let patcher = DirectoryPatcher::new(&settings);
    assert!(patcher.skips_hidden());
    assert!(patcher.respects_ignore_files());
    assert!(!settings.dry_run);
    assert!(patcher.type_rules().is_empty());
}

#[test]
fn test_wildcard_makes_a_glob() {
    assert!(has_wildcard("*.txt"));
    assert!(has_wildcard("a*"));
    assert!(has_wildcard("*"));
    assert!(!has_wildcard("py"));
    assert!(!has_wildcard(""));
    assert!(!has_wildcard("thé?"));
}
