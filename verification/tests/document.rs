use glaza::doc::DocError;
use glaza::show_repo::CurrentRepo;

#[test]
fn empty_repository_renders_empty_document() {
    let repo = CurrentRepo::empty();
    assert_eq!(repo.to_document(), "");
}

#[test]
fn empty_document_parses_to_empty_repository() {
    let repo = CurrentRepo::new("").unwrap();
    assert_eq!(repo.to_document(), "");
    assert!(repo.list(false).is_err());
}

#[test]
fn single_entry_document_text() {
    let mut repo = CurrentRepo::empty();
    let link = "http://x/".to_string();
    repo.new_show("T", Some(&link), None);
    let t = repo.normalize_show_pattern("T").unwrap();
    repo.change_episode(&t, 3).unwrap();
    repo.change_downloaded(&t, 1).unwrap();
    assert_eq!(
        repo.to_document(),
        "T:\n  episode: 3\n  downloaded: 1\n  link: http://x/\n  dlink: null\n"
    );
}

#[test]
fn round_trip_single_entry() {
    let mut repo = CurrentRepo::empty();
    let link = "http://x/".to_string();
    repo.new_show("T", Some(&link), None);
    let doc = repo.to_document();
    let reloaded = CurrentRepo::new(doc.as_str()).unwrap();
    assert_eq!(reloaded.to_document(), doc);
    let t = reloaded.normalize_show_pattern("T").unwrap();
    assert_eq!(reloaded.get_link(&t, false).unwrap(), "http://x/");
}

#[test]
fn round_trip_many_entries_with_partial_links() {
    let mut repo = CurrentRepo::empty();
    let e = "http://e/".to_string();
    let d = "http://d/".to_string();
    repo.new_show("Beta", Some(&e), None);
    repo.new_show("Alpha", None, Some(&d));
    repo.new_show("Gamma", Some(&e), Some(&d));
    repo.new_show("Delta", None, None);
    let t = repo.normalize_show_pattern("Beta").unwrap();
    repo.change_episode(&t, 12).unwrap();
    let doc = repo.to_document();
    let reloaded = CurrentRepo::new(doc.as_str()).unwrap();
    assert_eq!(reloaded.to_document(), doc);
    let t = reloaded.normalize_show_pattern("Beta").unwrap();
    assert_eq!(reloaded.get_episode(&t).unwrap(), 12);
    assert_eq!(reloaded.get_link(&t, false).unwrap(), "http://e/");
    let t = reloaded.normalize_show_pattern("Alpha").unwrap();
    assert_eq!(reloaded.get_link(&t, false).unwrap(), "http://d/");
    let t = reloaded.normalize_show_pattern("Delta").unwrap();
    assert_eq!(reloaded.get_link(&t, true).unwrap(), "");
}

#[test]
fn document_is_sorted_by_title() {
    let mut repo = CurrentRepo::empty();
    repo.new_show("b", None, None);
    repo.new_show("a", None, None);
    let doc = repo.to_document();
    assert!(doc.starts_with("a:\n"));
}

#[test]
fn garbage_is_rejected() {
    assert!(matches!(CurrentRepo::new("garbage"), Err(DocError::Malformed)));
}

#[test]
fn unterminated_document_is_rejected() {
    let doc = "T:\n  episode: 0\n  downloaded: 0\n  link: null\n  dlink: null";
    assert!(CurrentRepo::new(doc).is_err());
}

#[test]
fn unsorted_document_is_rejected() {
    let doc = "b:\n  episode: 0\n  downloaded: 0\n  link: null\n  dlink: null\n\
               a:\n  episode: 0\n  downloaded: 0\n  link: null\n  dlink: null\n";
    assert!(CurrentRepo::new(doc).is_err());
}

#[test]
fn counter_with_leading_zero_is_rejected() {
    let doc = "a:\n  episode: 01\n  downloaded: 0\n  link: null\n  dlink: null\n";
    assert!(CurrentRepo::new(doc).is_err());
}

#[test]
fn counter_above_u32_is_rejected() {
    let doc = "a:\n  episode: 4294967296\n  downloaded: 0\n  link: null\n  dlink: null\n";
    assert!(CurrentRepo::new(doc).is_err());
}

#[test]
fn largest_counter_round_trips() {
    let doc = "a:\n  episode: 4294967295\n  downloaded: 0\n  link: null\n  dlink: null\n";
    let repo = CurrentRepo::new(doc).unwrap();
    let t = repo.normalize_show_pattern("a").unwrap();
    assert_eq!(repo.get_episode(&t).unwrap(), u32::MAX);
    assert_eq!(repo.to_document(), doc);
}
