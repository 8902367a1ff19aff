use ruplacer::stats::{pluralize, summary};
use ruplacer::Stats;

#[test]
fn test_stats_to_string() {
    let mut stats = Stats::new();
    stats.update(1, 2);
    stats.update(0, 2);
    assert_eq!(stats.matching_files(), 2);
    assert_eq!(stats.total_replacements(), 4);
    assert_eq!(stats.matching_lines(), 1);
    let actual = stats.to_string();
    assert_eq!(actual, "4 replacements on 2 matching files");

    let mut stats = Stats::new();
    stats.update(1, 2);
    assert_eq!(stats.matching_files(), 1);
    assert_eq!(stats.total_replacements(), 2);
    assert_eq!(stats.matching_lines(), 1);
    let actual = stats.to_string();
    assert_eq!(actual, "2 replacements on 1 matching file");
}

#[test]
fn test_stats_singular() {
    let mut stats = Stats::new();
    stats.update(1, 1);
    assert_eq!(stats.to_string(), "1 replacement on 1 matching file");
}

#[test]
fn test_stats_start_at_zero() {
    let stats = Stats::default();
    assert_eq!(stats.matching_files(), 0);
    assert_eq!(stats.matching_lines(), 0);
    assert_eq!(stats.total_replacements(), 0);
    assert_eq!(stats.to_string(), "0 replacement on 0 matching file");
}

#[test]
fn test_stats_ignore_files_without_replacements() {
    let mut stats = Stats::new();
    stats.update(3, 0);
    assert_eq!(stats.matching_files(), 0);
    assert_eq!(stats.matching_lines(), 0);
    assert_eq!(stats.total_replacements(), 0);
}

#[test]
fn test_stats_add_up() {
    let mut stats = Stats::new();
    stats.update(1, 1);
    stats.update(2, 2);
    stats.update(5, 0);
    assert_eq!(stats.matching_files(), 2);
    assert_eq!(stats.matching_lines(), 3);
    assert_eq!(stats.total_replacements(), 3);
}

#[test]
fn test_stats_wrap_around() {
    let mut stats = Stats::new();
    stats.update(usize::MAX, usize::MAX);
    stats.update(2, 3);
    assert_eq!(stats.matching_files(), 2);
    assert_eq!(stats.matching_lines(), 1);
    assert_eq!(stats.total_replacements(), 2);
}

#[test]
fn test_pluralize() {
    assert_eq!(pluralize("file", 0), "file");
    assert_eq!(pluralize("file", 1), "file");
    assert_eq!(pluralize("file", 2), "files");
    assert_eq!(pluralize("replacement", 12), "replacements");
}

#[test]
fn test_summary_writes_numbers_in_decimal() {
    assert_eq!(summary(1203, "things", 0, "box"), "1203 things on 0 matching box");
    assert_eq!(
        summary(usize::MAX, "a", 10, "b"),
        format!("{} a on 10 matching b", usize::MAX)
    );
}
