use glaza::watched::WatchedRepo;

#[test]
fn read_is_contents_with_trailing_whitespace_trimmed() {
    let w = WatchedRepo::new("25.01.02 - a\n25.01.03 - b\n");
    assert_eq!(w.read(), "25.01.02 - a\n25.01.03 - b");
}

#[test]
fn read_never_reorders_or_reformats() {
    let w = WatchedRepo::new("z later\n  a first  \n");
    assert_eq!(w.read(), "z later\n  a first");
}

#[test]
fn read_of_empty_log_is_empty() {
    let w = WatchedRepo::new("");
    assert_eq!(w.read(), "");
}

#[test]
fn append_record_appends_exactly_one_line() {
    let mut w = WatchedRepo::new("old - x\n");
    w.append_record("25.01.02", "foo");
    assert_eq!(w.render(), "old - x\n25.01.02 - foo\n");
}

#[test]
fn finish_appends_a_stamped_line() {
    let mut w = WatchedRepo::new("");
    w.finish("My Show");
    let text = w.render();
    let line = text.strip_suffix("\n").unwrap();
    let stamp = line.strip_suffix(" - My Show").unwrap();
    assert_eq!(stamp.len(), 8);
    let bytes = stamp.as_bytes();
    for (i, b) in bytes.iter().enumerate() {
        if i == 2 || i == 5 {
            assert_eq!(*b, b'.');
        } else {
            assert!(b.is_ascii_digit());
        }
    }
}

#[test]
fn drop_appends_an_annotated_line() {
    let mut w = WatchedRepo::new("");
    w.drop(4, "My Show");
    let text = w.render();
    let line = text.strip_suffix("\n").unwrap();
    assert!(line.ends_with(" - (dropped at ep 4) My Show"));
    assert_eq!(line.len(), 8 + " - (dropped at ep 4) My Show".len());
}

#[test]
fn log_only_ever_grows() {
    let mut w = WatchedRepo::new("a\n");
    let before = w.render();
    w.finish("b");
    assert!(w.render().starts_with(before.as_str()));
}
