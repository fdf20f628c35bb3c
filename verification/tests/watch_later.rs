use glaza::wl_repo::{WlError, WlRepo};

#[test]
fn add_duplicate_fails_and_changes_nothing() {
    let mut wl = WlRepo::new("a\nb");
    let before = wl.render();
    match wl.add("a") {
        Err(WlError::Duplicate(s)) => assert_eq!(s, "a"),
        _ => panic!("expected Duplicate"),
    }
    assert_eq!(wl.render(), before);
}

#[test]
fn add_appends_a_line() {
    let mut wl = WlRepo::new("a\nb");
    wl.add("c").unwrap();
    assert_eq!(wl.render(), "a\nb\nc");
}

#[test]
fn add_to_empty_queue() {
    let mut wl = WlRepo::new("");
    wl.add("first").unwrap();
    assert_eq!(wl.render(), "first");
}

#[test]
fn remove_deletes_the_matching_line() {
    let mut wl = WlRepo::new("a\nb\nc");
    let t = wl.normalize_show_pattern("b").unwrap();
    wl.remove(&t);
    assert_eq!(wl.render(), "a\nc");
}

#[test]
fn duplicate_check_is_exact() {
    // A differently-cased line is not a duplicate.
    let mut wl = WlRepo::new("Show");
    wl.add("show").unwrap();
    assert_eq!(wl.render(), "Show\nshow");
}

#[test]
fn list_trims_trailing_whitespace_only() {
    let wl = WlRepo::new("a\nb\n\n");
    assert_eq!(wl.list(), "a\nb");
}

#[test]
fn resolves_partial_pattern_from_queue() {
    let wl = WlRepo::new("Breaking Bad\nMad Men");
    let t = wl.normalize_show_pattern("mad").unwrap();
    assert_eq!(t.as_str(), "Mad Men");
}
