use regex::Regex;
use ruplacer::report::{display_pieces, Piece};
use ruplacer::{replace, Query};

fn shown(prefix: &str, pieces: &[Piece]) -> String {
    let mut line = prefix.to_string();
    for piece in pieces {
        if piece.marked {
            line.push('[');
            line.push_str(&piece.text);
            line.push(']');
        } else {
            line.push_str(&piece.text);
        }
    }
    line
}

#[test]
fn test_display_patch() {
    let input = "Top: old is nice";
    let pattern = "old";
    let replacement = "new";
    let query = Query::simple(pattern, replacement);
    let replacement = replace(input, &query).unwrap();
    let before = display_pieces(&replacement, false);
    let after = display_pieces(&replacement, true);
    assert_eq!(shown("foo.txt:3 ", &before), "foo.txt:3 Top: [old] is nice\n");
    assert_eq!(shown("foo.txt:3 ", &after), "foo.txt:3 Top: [new] is nice\n");
}

#[test]
fn test_display_drops_leading_white_space() {
    let query = Query::preserve_case("foo_bar", "spam_eggs");
    let replacement = replace("    let foo_bar = FooBar::new();\n", &query).unwrap();
    let before = display_pieces(&replacement, false);
    let after = display_pieces(&replacement, true);
    assert_eq!(shown("", &before), "let [foo_bar] = [FooBar]::new();\n");
    assert_eq!(shown("", &after), "let [spam_eggs] = [SpamEggs]::new();\n");
    assert_eq!(before.len(), 5);
    assert_eq!(before[0].text, "let ");
    assert!(!before[0].marked);
    assert!(before[1].marked);
    assert_eq!(before[2].text, " = ");
}

#[test]
fn test_display_adds_the_missing_newline_once() {
    let query = Query::regex(Regex::new("end\n?").unwrap(), "stop");
    let replacement = replace("the end\n", &query).unwrap();
    let before = display_pieces(&replacement, false);
    let after = display_pieces(&replacement, true);
    assert_eq!(shown("", &before), "the [end\n]");
    assert_eq!(shown("", &after), "the [stop]\n");
    assert_eq!(before.len(), 3);
    assert_eq!(after.len(), 4);
}
