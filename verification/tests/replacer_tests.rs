use regex::Regex;
use ruplacer::replacer::{get_output, holds_reference, regex_hit, Fragments};
use ruplacer::text::find_str;
use ruplacer::{replace, Query};

#[test]
fn test_simple_1() {
    let input = "Mon thé c'est le meilleur des thés !";
    let pattern = "thé";
    let replacement = "café";
    let query = Query::simple(pattern, replacement);
    let replacement = replace(input, &query).unwrap();
    assert_eq!(
        replacement.output(),
        "Mon café c'est le meilleur des cafés !"
    );
}

#[test]
fn test_simple_2() {
    let input = "old old old";
    let pattern = "old";
    let replacement = "new";
    let query = Query::simple(pattern, replacement);
    let replacement = replace(input, &query).unwrap();
    assert_eq!(replacement.output(), "new new new");
}

#[test]
fn test_preserve_case() {
    let input = "let foo_bar = FooBar::new();";
    let pattern = "foo_bar";
    let replacement = "spam_eggs";
    let query = Query::preserve_case(pattern, replacement);
    let replacement = replace(input, &query).unwrap();
    assert_eq!(replacement.output(), "let spam_eggs = SpamEggs::new();");
}

#[test]
fn test_regex_with_substitutions() {
    let input = "first, second";
    let regex = Regex::new(r"(\w+), (\w+)").unwrap();
    let query = Query::regex(regex, r"$2 $1");
    let replacement = replace(input, &query).unwrap();
    assert_eq!(replacement.output(), "second first");
}

#[test]
fn test_simple_regex() {
    let input = "old is old";
    let regex = Regex::new("old").unwrap();
    let query = Query::regex(regex, "new");
    let replacement = replace(input, &query).unwrap();
    assert_eq!(replacement.output(), "new is new");
}

#[test]
fn test_get_replacements_substring() {
    let input = "this is an old string";
    let query = Query::simple("old", "new");
    let replacement = replace(input, &query).unwrap();
    let fragments = replacement.fragments();
    assert_eq!(fragments.len(), 1);
    let (old, new) = fragments.get(0);
    assert_eq!(old.index, 11);
    assert_eq!(old.index + old.text.len(), 14);
    assert_eq!(new.text, "new");
}

#[test]
fn test_get_replacements_basic_regex() {
    let re = Regex::new("ba(r|z)").unwrap();
    let input = "bar and baz";
    let query = Query::regex(re, "bof");
    let replacement = replace(input, &query).unwrap();
    let fragments = replacement.fragments();
    assert_eq!(fragments.len(), 2);
    let (first_old, first_new) = fragments.get(0);
    assert_eq!(first_old.index, 0);
    assert_eq!(first_old.index + first_old.text.len(), 3);
    assert_eq!(first_new.text, "bof");

    let (second_old, second_new) = fragments.get(1);
    assert_eq!(second_old.index, 8);
    assert_eq!(second_old.index + second_old.text.len(), 11);
    assert_eq!(second_new.text, "bof");
}

#[test]
fn test_get_replacements_regex_with_patterns_one_match() {
    let re = Regex::new(r"(\w+), (\w+)").unwrap();
    let input = "Last, First";
    let query = Query::regex(re, "$2 $1");
    let replacement = replace(input, &query).unwrap();
    let (old, new) = replacement.fragments().get(0);
    assert_eq!(old.index, 0);
    assert_eq!(new.text, "First Last");
    assert_eq!(replacement.output(), "First Last");
}

#[test]
fn test_get_replacements_regex_with_patterns_several_matches() {
    let re = Regex::new(r"ba(r|z)").unwrap();
    let input = "bar, baz and bat";
    let query = Query::regex(re, "BABA$1");
    let replacement = replace(input, &query).unwrap();
    assert_eq!(replacement.output(), "BABAr, BABAz and bat");
}

#[test]
fn test_get_replacements_subvert() {
    let input = "foo_bar and FooBar";
    let query = Query::preserve_case("foo_bar", "spam_eggs");
    let replacement = replace(input, &query).unwrap();
    assert_eq!(replacement.output(), "spam_eggs and SpamEggs");
}

#[test]
fn test_no_match_gives_no_replacement() {
    let query = Query::simple("old", "new");
    assert!(replace("nothing to see here", &query).is_none());
    assert!(replace("", &query).is_none());
}

#[test]
fn test_literal_counts_every_occurrence() {
    let query = Query::simple("aa", "b");
    let replacement = replace("aaaaa aa", &query).unwrap();
    assert_eq!(replacement.num_fragments(), 3);
    assert_eq!(replacement.output(), "bba b");
    assert_eq!(replacement.input(), "aaaaa aa");
}

#[test]
fn test_fragment_offsets_on_both_sides() {
    let query = Query::simple("tea", "coffee");
    let replacement = replace("my tea is the best tea", &query).unwrap();
    let fragments = replacement.fragments();
    assert_eq!(fragments.len(), 2);
    let (old, new) = fragments.get(0);
    assert_eq!((old.index, old.text.as_str()), (3, "tea"));
    assert_eq!((new.index, new.text.as_str()), (3, "coffee"));
    let (old, new) = fragments.get(1);
    assert_eq!((old.index, old.text.as_str()), (19, "tea"));
    assert_eq!((new.index, new.text.as_str()), (22, "coffee"));
    assert_eq!(replacement.output(), "my coffee is the best coffee");
}

#[test]
fn test_offsets_are_bytes_on_character_boundaries() {
    let query = Query::simple("thé", "café");
    let replacement = replace("é thé", &query).unwrap();
    let (old, new) = replacement.fragments().get(0);
    assert_eq!(old.index, 3);
    assert_eq!(new.index, 3);
    assert_eq!(replacement.output(), "é café");
}

#[test]
fn test_empty_pattern_finds_nothing() {
    let query = Query::simple("", "new");
    assert!(replace("some text", &query).is_none());
    let query = Query::regex(Regex::new("x*").unwrap(), "new");
    assert!(replace("some text", &query).is_none());
}

#[test]
fn test_regex_match_of_no_length_ends_the_search() {
    let query = Query::regex(Regex::new("a*").unwrap(), "b");
    let replacement = replace("aa-aa", &query).unwrap();
    assert_eq!(replacement.num_fragments(), 1);
    assert_eq!(replacement.output(), "b-aa");
}

#[test]
fn test_preserve_case_all_variants() {
    let query = Query::preserve_case("foo_bar", "spam_eggs");
    let input = "foo_bar, FooBar, FOO_BAR and foo-bar";
    let replacement = replace(input, &query).unwrap();
    assert_eq!(
        replacement.output(),
        "spam_eggs, SpamEggs, SPAM_EGGS and spam-eggs"
    );
    assert_eq!(replacement.num_fragments(), 4);
}

#[test]
fn test_preserve_case_variants_in_order() {
    let query = Query::preserve_case("foo_bar", "spam_eggs");
    match query {
        Query::PreserveCase(items) => {
            let patterns: Vec<&str> = items.iter().map(|item| item.0.as_str()).collect();
            assert_eq!(
                patterns,
                vec!["Foo_Bar", "fooBar", "foo-bar", "FooBar", "FOO_BAR", "foo_bar", "Foo-Bar"]
            );
            let replacements: Vec<&str> = items.iter().map(|item| item.1.as_str()).collect();
            assert_eq!(
                replacements,
                vec![
                    "Spam_Eggs",
                    "spamEggs",
                    "spam-eggs",
                    "SpamEggs",
                    "SPAM_EGGS",
                    "spam_eggs",
                    "Spam-Eggs"
                ]
            );
        }
        _ => panic!("a case-preserving query was asked for"),
    }
}

#[test]
fn test_preserve_case_earliest_match_wins() {
    let query = Query::preserve_case("old", "new");
    let replacement = replace("Old old = new Old();", &query).unwrap();
    assert_eq!(replacement.output(), "New new = new New();");
    let fragments = replacement.fragments();
    assert_eq!(fragments.len(), 3);
    assert_eq!(fragments.get(0).0.index, 0);
    assert_eq!(fragments.get(1).0.index, 4);
    assert_eq!(fragments.get(2).0.index, 14);
}

#[test]
fn test_preserve_case_tie_goes_to_the_first_variant() {
    let query = Query::PreserveCase(vec![
        ("ab".to_string(), "1".to_string()),
        ("abc".to_string(), "2".to_string()),
        ("x".to_string(), "3".to_string()),
    ]);
    let replacement = replace("x abc", &query).unwrap();
    assert_eq!(replacement.output(), "3 1c");
}

#[test]
fn test_get_output_rebuilds_the_line() {
    let query = Query::simple("old", "new");
    let input = "Top: old is nice, old is fine";
    let replacement = replace(input, &query).unwrap();
    assert_eq!(get_output(input, replacement.fragments()), replacement.output());
    let mut fragments = Fragments::new();
    assert!(fragments.is_empty());
    assert_eq!(get_output(input, &fragments), input);
    fragments.add((5, "old"), (5, "brand new"));
    assert_eq!(get_output(input, &fragments), "Top: brand new is nice, old is fine");
}

#[test]
fn test_replace_there_and_back() {
    let there = Query::simple("old", "new");
    let back = Query::simple("new", "old");
    let input = "an old line with old words\n";
    let changed = replace(input, &there).unwrap();
    assert_eq!(changed.output(), "an new line with new words\n");
    let restored = replace(changed.output(), &back).unwrap();
    assert_eq!(restored.output(), input);
}

#[test]
fn test_replace_back_finds_other_fragments() {
    let there = Query::simple("x", "aa");
    let back = Query::simple("aa", "x");
    let changed = replace("ax", &there).unwrap();
    assert_eq!(changed.output(), "aaa");
    let restored = replace(changed.output(), &back).unwrap();
    assert_eq!(restored.fragments().get(0).0.index, 0);
    assert_ne!(changed.fragments().get(0).1.index, 0);
    assert_eq!(restored.output(), "xa");
}

#[test]
fn test_regex_match_is_replaced_in_its_line() {
    let query = Query::regex(Regex::new(r"\Bfoo").unwrap(), "bar");
    let replacement = replace("xfoo", &query).unwrap();
    assert_eq!(replacement.output(), "xbar");
    let fragments = replacement.fragments();
    assert_eq!(fragments.len(), 1);
    let (old, new) = fragments.get(0);
    assert_eq!((old.index, old.text.as_str()), (1, "foo"));
    assert_eq!((new.index, new.text.as_str()), (1, "bar"));
}

#[test]
fn test_regex_groups_are_those_of_the_match_in_its_line() {
    let query = Query::regex(Regex::new(r"\B(fo)o").unwrap(), "<$1>");
    let replacement = replace("xfoo", &query).unwrap();
    assert_eq!(replacement.output(), "x<fo>");
    let (old, new) = replacement.fragments().get(0);
    assert_eq!((old.index, old.text.as_str()), (1, "foo"));
    assert_eq!((new.index, new.text.as_str()), (1, "<fo>"));
    let query = Query::regex(Regex::new(r"(\w+)@(\w+)").unwrap(), "$2 at $$ $1");
    let replacement = replace("to a@b and c@d.", &query).unwrap();
    assert_eq!(replacement.output(), "to b at $ a and d at $ c.");
}

#[test]
fn test_template_with_a_reference() {
    assert!(holds_reference("$1"));
    assert!(holds_reference("a $$ b"));
    assert!(holds_reference("price: 3$"));
    assert!(!holds_reference("bar"));
    assert!(!holds_reference(""));
    assert!(!holds_reference("thé"));
}

#[test]
fn test_regex_hit_takes_the_span_and_the_text() {
    let hit = regex_hit("é thé vert", 3, 7, "café".to_string());
    assert_eq!(hit, (3, "thé".to_string(), "café".to_string()));
    let hit = regex_hit("abc", 3, 3, String::new());
    assert_eq!(hit, (3, String::new(), String::new()));
}

#[test]
fn test_find_str() {
    assert_eq!(find_str("this is an old string", "old"), Some(11));
    assert_eq!(find_str("old old", "old"), Some(0));
    assert_eq!(find_str("aab", "ab"), Some(1));
    assert_eq!(find_str("Mon thé", "thé"), Some(4));
    assert_eq!(find_str("é é", " é"), Some(2));
    assert_eq!(find_str("abc", "abcd"), None);
    assert_eq!(find_str("abc", "x"), None);
    assert_eq!(find_str("abc", "bd"), None);
    assert_eq!(find_str("abc", ""), Some(0));
    assert_eq!(find_str("", ""), Some(0));
    assert_eq!(find_str("", "a"), None);
    assert_eq!(find_str("abc", "c"), Some(2));
}
