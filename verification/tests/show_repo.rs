use glaza::show_repo::{CurrentRepo, RepoError};
use glaza::title::ValidatedTitle;

fn repo_with(title: &str, link: Option<&str>, dlink: Option<&str>) -> CurrentRepo {
    let mut repo = CurrentRepo::empty();
    let link = link.map(|s| s.to_string());
    let dlink = dlink.map(|s| s.to_string());
    repo.new_show(title, link.as_ref(), dlink.as_ref());
    repo
}

fn resolve(repo: &CurrentRepo, pattern: &str) -> ValidatedTitle {
    repo.normalize_show_pattern(pattern).unwrap()
}

#[test]
fn new_show_starts_at_zero() {
    let repo = repo_with("Show", Some("http://x/"), None);
    let t = resolve(&repo, "Show");
    assert_eq!(repo.get_episode(&t).unwrap(), 0);
    assert_eq!(repo.get_downloaded(&t).unwrap(), 0);
}

#[test]
fn next_episode_link_appends_next_index() {
    let mut repo = repo_with("Show", Some("http://x/ep"), None);
    let t = resolve(&repo, "Show");
    repo.change_episode(&t, 5).unwrap();
    assert_eq!(repo.get_next_episode_link(&t).unwrap(), "http://x/ep6");
}

#[test]
fn next_download_link_appends_next_index() {
    let mut repo = repo_with("Show", None, Some("http://d/"));
    let t = resolve(&repo, "Show");
    repo.change_downloaded(&t, 5).unwrap();
    assert_eq!(repo.get_next_download_link(&t).unwrap(), "http://d/6");
}

#[test]
fn link_fields_fall_back_to_each_other() {
    let repo = repo_with("A", Some("http://episode/"), None);
    let t = resolve(&repo, "A");
    assert_eq!(repo.get_link(&t, true).unwrap(), "http://episode/");
    let repo = repo_with("B", None, Some("http://download/"));
    let t = resolve(&repo, "B");
    assert_eq!(repo.get_link(&t, false).unwrap(), "http://download/");
    let repo = repo_with("C", None, None);
    let t = resolve(&repo, "C");
    assert_eq!(repo.get_link(&t, false).unwrap(), "");
    assert_eq!(repo.get_link(&t, true).unwrap(), "");
}

#[test]
fn change_link_touches_only_one_field() {
    let mut repo = repo_with("A", Some("http://old/"), Some("http://d/"));
    let t = resolve(&repo, "A");
    repo.change_link(&t, "http://new/", false).unwrap();
    assert_eq!(repo.get_link(&t, false).unwrap(), "http://new/");
    assert_eq!(repo.get_link(&t, true).unwrap(), "http://d/");
}

#[test]
fn remove_then_readd_resets_counters() {
    let mut repo = repo_with("Show", Some("http://x/"), None);
    let t = resolve(&repo, "Show");
    repo.change_episode(&t, 7).unwrap();
    repo.change_downloaded(&t, 9).unwrap();
    repo.remove(&t).unwrap();
    let link = "http://x/".to_string();
    repo.new_show("Show", Some(&link), None);
    let t = resolve(&repo, "Show");
    assert_eq!(repo.get_episode(&t).unwrap(), 0);
    assert_eq!(repo.get_downloaded(&t).unwrap(), 0);
}

#[test]
fn stale_title_reports_not_found() {
    let mut repo = repo_with("Show", None, None);
    let t = resolve(&repo, "Show");
    repo.remove(&t).unwrap();
    match repo.remove(&t) {
        Err(RepoError::NotFound(s)) => assert_eq!(s, "Show"),
        _ => panic!("expected NotFound"),
    }
    assert!(matches!(repo.get_episode(&t), Err(RepoError::NotFound(_))));
}

#[test]
fn new_show_overwrites_existing_record() {
    let mut repo = repo_with("Show", Some("http://a/"), None);
    let t = resolve(&repo, "Show");
    repo.change_episode(&t, 3).unwrap();
    let link = "http://b/".to_string();
    repo.new_show("Show", Some(&link), None);
    let t = resolve(&repo, "Show");
    assert_eq!(repo.get_episode(&t).unwrap(), 0);
    assert_eq!(repo.get_link(&t, false).unwrap(), "http://b/");
}

#[test]
fn list_aligns_columns() {
    let mut repo = CurrentRepo::empty();
    repo.new_show("Long Title", None, None);
    repo.new_show("ab", None, None);
    let t = repo.normalize_show_pattern("Long Title").unwrap();
    repo.change_episode(&t, 100).unwrap();
    let lines = repo.list(false).unwrap();
    assert_eq!(
        lines,
        vec![
            "Long Title — ep100 — dn0".to_string(),
            "ab         — ep0   — dn0".to_string(),
        ]
    );
}

#[test]
fn list_with_links_shows_both_fields() {
    let repo = repo_with("A", Some("http://x/"), None);
    let lines = repo.list(true).unwrap();
    assert_eq!(
        lines,
        vec![
            "A — ep0 — dn0".to_string(),
            "  link: http://x/".to_string(),
            "  dlink: empty".to_string(),
        ]
    );
}

#[test]
fn listing_nothing_is_an_error() {
    let repo = CurrentRepo::empty();
    assert!(matches!(repo.list(false), Err(RepoError::Empty)));
}
