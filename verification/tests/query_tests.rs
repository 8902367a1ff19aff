use ruplacer::outcome::{
    closing_message, exit_status, run_outcome, RunOutcome, EXIT_FAILURE, EXIT_NOTHING_FOUND,
};
use ruplacer::query::{expand_case_variants, to_ada_case, to_word_pattern};
use ruplacer::{replace, Query, Stats};

fn patterns(items: &[(String, String)]) -> Vec<&str> {
    items.iter().map(|item| item.0.as_str()).collect()
}

#[test]
fn test_case_variants_of_pascal_case() {
    let items = expand_case_variants("FooBar", "SpamEggs");
    assert_eq!(
        patterns(&items),
        vec!["Foo_Bar", "fooBar", "foo-bar", "FooBar", "FOO_BAR", "foo_bar", "Foo-Bar"]
    );
    assert_eq!(items[0].1, "Spam_Eggs");
    assert_eq!(items[5].1, "spam_eggs");
}

#[test]
fn test_case_variants_of_kebab_case() {
    let items = expand_case_variants("foo-bar", "spam-eggs");
    assert_eq!(
        patterns(&items),
        vec!["Foo_Bar", "fooBar", "foo-bar", "FooBar", "FOO_BAR", "foo_bar", "Foo-Bar"]
    );
    assert_eq!(items[2].1, "spam-eggs");
    assert_eq!(items[4].1, "SPAM_EGGS");
}

#[test]
fn test_ada_case() {
    assert_eq!(to_ada_case("foo_bar"), "Foo_Bar");
    assert_eq!(to_ada_case("fooBarBaz"), "Foo_Bar_Baz");
    assert_eq!(to_ada_case("foo"), "Foo");
}

#[test]
fn test_word_pattern() {
    assert_eq!(to_word_pattern("old"), r"\b(old)\b");
    assert_eq!(to_word_pattern(""), r"\b()\b");
}

#[test]
fn test_query_from_options_prefers_the_literal() {
    let query = Query::from_options("a.c", "x", true, true, true).unwrap();
    assert!(matches!(&query, Query::Simple(old, new) if old == "a.c" && new == "x"));
    assert!(replace("abc", &query).is_none());
    assert_eq!(replace("a.c", &query).unwrap().output(), "x");
}

#[test]
fn test_query_from_options_preserves_case_before_regex() {
    let query = Query::from_options("foo_bar", "spam_eggs", false, true, true).unwrap();
    assert!(matches!(&query, Query::PreserveCase(items) if items.len() == 7));
    assert_eq!(replace("FooBar", &query).unwrap().output(), "SpamEggs");
}

#[test]
fn test_query_from_options_reads_a_regex() {
    let query = Query::from_options("a.c", "x", false, false, false).unwrap();
    assert_eq!(replace("abc a.c", &query).unwrap().output(), "x x");
}

#[test]
fn test_query_for_whole_words() {
    let query = Query::from_options("old", "new", false, false, true).unwrap();
    assert_eq!(replace("old bold old", &query).unwrap().output(), "new bold new");
    let query = Query::from_pattern("old", "new", false).unwrap();
    assert_eq!(replace("old bold old", &query).unwrap().output(), "new bnew new");
}

#[test]
fn test_pattern_that_is_no_regex() {
    let error = match Query::from_pattern("(unclosed", "new", false) {
        Ok(_) => panic!("the pattern is no regex"),
        Err(error) => error,
    };
    let text = error.to_string();
    assert!(text.starts_with("Invalid regex: "));
    assert!(text.len() > "Invalid regex: ".len());
    assert!(Query::from_options("(unclosed", "new", false, false, true).is_err());
    assert!(Query::from_options("(unclosed", "new", true, false, false).is_ok());
}

#[test]
fn test_run_outcome() {
    let mut stats = Stats::new();
    assert_eq!(run_outcome(&stats, true), RunOutcome::NothingFound);
    assert_eq!(run_outcome(&stats, false), RunOutcome::NothingFoundFailure);
    stats.update(1, 1);
    assert_eq!(run_outcome(&stats, true), RunOutcome::Replaced);
    assert_eq!(run_outcome(&stats, false), RunOutcome::Replaced);
}

#[test]
fn test_exit_status() {
    assert_eq!(exit_status(RunOutcome::Replaced), 0);
    assert_eq!(exit_status(RunOutcome::NothingFound), 0);
    assert_eq!(exit_status(RunOutcome::NothingFoundFailure), 2);
    assert_eq!(EXIT_NOTHING_FOUND, 2);
    assert_eq!(EXIT_FAILURE, 1);
    assert_ne!(EXIT_FAILURE, EXIT_NOTHING_FOUND);
}

#[test]
fn test_closing_message() {
    let mut stats = Stats::new();
    stats.update(1, 1);
    stats.update(1, 2);
    assert_eq!(
        closing_message(&stats, false),
        "Performed 3 replacements on 2 matching files\n"
    );
    assert_eq!(
        closing_message(&stats, true),
        "Would perform 3 replacements on 2 matching files\nRe-run ruplacer with --go to write these changes to the filesystem\n"
    );
}
