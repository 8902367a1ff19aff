use ruplacer::file_patcher::LineIterator;
use ruplacer::{Error, FilePatcher, Query};

#[test]
fn test_patch_file() {
    let contents = "first line\nI say: old is nice\nlast line";
    let query = Query::simple("old", "new");
    let file_patcher =
        FilePatcher::new("without-trailing-newline.txt", contents.as_bytes(), &query);
    let actual = file_patcher.unwrap();
    let expected = "first line\nI say: new is nice\nlast line";
    assert_eq!(actual.new_contents(), expected);

    let contents = "first line\nI say: old is nice\nlast line\n";
    let query = Query::simple("old", "new");
    let file_patcher = FilePatcher::new("with-trailing-newline.txt", contents.as_bytes(), &query);
    let actual = file_patcher.unwrap();
    let expected = "first line\nI say: new is nice\nlast line\n";
    assert_eq!(actual.new_contents(), expected);
}

#[test]
fn test_patch_counts_lines_and_fragments() {
    let contents = "old and old\nnothing\r\nold\n\nthe end";
    let query = Query::simple("old", "new");
    let patcher = FilePatcher::new("a.txt", contents.as_bytes(), &query).unwrap();
    assert_eq!(patcher.path(), "a.txt");
    assert_eq!(patcher.num_lines(), 2);
    assert_eq!(patcher.num_replacements(), 3);
    assert_eq!(patcher.new_contents(), "new and new\nnothing\r\nnew\n\nthe end");
    let changes = patcher.changes();
    assert_eq!(changes.len(), 2);
    assert_eq!(changes[0].line_number, 1);
    assert_eq!(changes[0].replacement.input(), "old and old\n");
    assert_eq!(changes[0].replacement.output(), "new and new\n");
    assert_eq!(changes[1].line_number, 3);
    assert_eq!(changes[1].replacement.num_fragments(), 1);
}

#[test]
fn test_patch_without_match_keeps_every_byte() {
    let query = Query::simple("old", "new");
    for contents in ["", "\n", "a\r\nb\r\n", "no end of line", "é\n\n\nz"] {
        let patcher = FilePatcher::new("a.txt", contents.as_bytes(), &query).unwrap();
        assert_eq!(patcher.new_contents(), contents);
        assert_eq!(patcher.num_lines(), 0);
        assert_eq!(patcher.num_replacements(), 0);
        assert!(patcher.changes().is_empty());
    }
}

#[test]
fn test_patch_there_and_back() {
    let contents = "first old line\r\nsecond line\nold and old";
    let there = Query::simple("old", "new");
    let back = Query::simple("new", "old");
    let changed = FilePatcher::new("a.txt", contents.as_bytes(), &there).unwrap();
    assert_eq!(changed.new_contents(), "first new line\r\nsecond line\nnew and new");
    let restored =
        FilePatcher::new("a.txt", changed.new_contents().as_bytes(), &back).unwrap();
    assert_eq!(restored.new_contents(), contents);
}

#[test]
fn test_patch_skips_what_is_no_text() {
    let query = Query::simple("old", "new");
    assert!(FilePatcher::new("foo.latin1", b"caf\xef\n", &query).is_none());
    assert!(FilePatcher::new("foo.bin", b"old\nold \xff\n", &query).is_none());
}

#[test]
fn test_line_iterator_keeps_the_delimiter() {
    let data = b"one\ntwo\n\nlast";
    let mut lines = LineIterator::new(b'\n', data);
    assert_eq!(lines.next(), Some(b"one\n".to_vec()));
    assert_eq!(lines.next(), Some(b"two\n".to_vec()));
    assert_eq!(lines.next(), Some(b"\n".to_vec()));
    assert_eq!(lines.next(), Some(b"last".to_vec()));
    assert_eq!(lines.next(), None);
    assert_eq!(lines.next(), None);
    let mut lines = LineIterator::new(b';', b"a;b;");
    assert_eq!(lines.next(), Some(b"a;".to_vec()));
    assert_eq!(lines.next(), Some(b"b;".to_vec()));
    assert_eq!(lines.next(), None);
}

#[test]
fn test_error_messages() {
    assert_eq!(Error::new("it broke").to_string(), "it broke");
    let error = Error::from_read_error("a/b.txt", "permission denied").unwrap_err();
    assert_eq!(error.to_string(), "Error when reading a/b.txt: permission denied");
    let error = Error::from_write_error("a/b.txt", "disk full").unwrap_err();
    assert_eq!(error.to_string(), "Error when writing a/b.txt: disk full");
    assert_eq!(Error::from_io_cause("broken pipe").to_string(), "I/O error: broken pipe");
    assert_eq!(
        Error::from_ignore_cause("bad glob").to_string(),
        "Error when parsing .ignore files: bad glob"
    );
}

#[test]
fn test_patch_skips_exactly_what_does_not_decode() {
    let query = Query::simple("old", "new");
    let samples: [&[u8]; 6] = [
        b"plain\nold\n",
        "th\u{e9}\nold th\u{e9}".as_bytes(),
        b"\xc3\n\xa9",
        b"a\xe2\x82\n",
        b"\n\n\xff",
        b"",
    ];
    for contents in samples {
        let patched = FilePatcher::new("a.txt", contents, &query);
        assert_eq!(patched.is_some(), std::str::from_utf8(contents).is_ok());
    }
}
