use glaza::commands::{
    show_drop, show_finish, show_list, show_remove, show_set_downloaded, show_set_episode,
    show_set_link, show_start, watched_list, wl_add, wl_discard, wl_list, CommandError,
};
use glaza::show_repo::CurrentRepo;
use glaza::title::ResolveError;
use glaza::watched::WatchedRepo;
use glaza::wl_repo::WlRepo;

fn current_with(title: &str, link: Option<&str>) -> CurrentRepo {
    let mut repo = CurrentRepo::empty();
    let link = link.map(|s| s.to_string());
    repo.new_show(title, link.as_ref(), None);
    repo
}

#[test]
fn set_episode_derives_commit_message() {
    let mut repo = current_with("My Show", Some("http://x/"));
    let msg = show_set_episode("my", 5, &mut repo, true).unwrap();
    assert_eq!(msg.unwrap(), "watch ep5 -> My Show");
    let t = repo.normalize_show_pattern("My Show").unwrap();
    assert_eq!(repo.get_episode(&t).unwrap(), 5);
}

#[test]
fn set_episode_without_commit_has_no_message() {
    let mut repo = current_with("My Show", None);
    let msg = show_set_episode("my", 5, &mut repo, false).unwrap();
    assert!(msg.is_none());
}

#[test]
fn set_episode_on_unknown_pattern_fails() {
    let mut repo = current_with("My Show", None);
    match show_set_episode("zzz", 5, &mut repo, true) {
        Err(CommandError::Resolve(ResolveError::NoMatch)) => {}
        _ => panic!("expected NoMatch"),
    }
}

#[test]
fn set_downloaded_derives_commit_message() {
    let mut repo = current_with("My Show", None);
    let msg = show_set_downloaded("my", 7, &mut repo, true).unwrap();
    assert_eq!(msg.unwrap(), "download ep7 -> My Show");
    let t = repo.normalize_show_pattern("My Show").unwrap();
    assert_eq!(repo.get_downloaded(&t).unwrap(), 7);
}

#[test]
fn set_link_derives_commit_message() {
    let mut repo = current_with("My Show", None);
    let msg = show_set_link("my", "http://n/", false, &mut repo, true).unwrap();
    assert_eq!(msg.unwrap(), "update link -> My Show -> http://n/");
    let msg = show_set_link("my", "http://d/", true, &mut repo, true).unwrap();
    assert_eq!(msg.unwrap(), "update dlink -> My Show -> http://d/");
    let t = repo.normalize_show_pattern("My Show").unwrap();
    assert_eq!(repo.get_link(&t, false).unwrap(), "http://n/");
    assert_eq!(repo.get_link(&t, true).unwrap(), "http://d/");
}

#[test]
fn remove_derives_commit_message() {
    let mut repo = current_with("My Show", None);
    let msg = show_remove("my", &mut repo, true).unwrap();
    assert_eq!(msg.unwrap(), "remove -> My Show");
    assert!(repo.list(false).is_err());
}

#[test]
fn start_adds_a_fresh_show() {
    let mut repo = CurrentRepo::empty();
    let mut wl = WlRepo::new("");
    let link = "http://x/".to_string();
    let msg = show_start("New Show", Some(&link), None, false, &mut repo, &mut wl, true).unwrap();
    assert_eq!(msg.unwrap(), "start -> New Show");
    let t = repo.normalize_show_pattern("New Show").unwrap();
    assert_eq!(repo.get_episode(&t).unwrap(), 0);
}

#[test]
fn start_with_grab_takes_the_show_off_the_queue() {
    let mut repo = CurrentRepo::empty();
    let mut wl = WlRepo::new("Queued Show\nOther");
    let msg = show_start("queued", None, None, true, &mut repo, &mut wl, true).unwrap();
    assert_eq!(msg.unwrap(), "start -> Queued Show");
    assert_eq!(wl.render(), "Other");
    assert!(repo.normalize_show_pattern("Queued Show").is_ok());
}

#[test]
fn wl_add_and_duplicate() {
    let mut wl = WlRepo::new("");
    let msg = wl_add("Show", &mut wl, true).unwrap();
    assert_eq!(msg.unwrap(), "wl add -> Show");
    match wl_add("Show", &mut wl, true) {
        Err(CommandError::WatchLater(_)) => {}
        _ => panic!("expected Duplicate"),
    }
    assert_eq!(wl.render(), "Show");
}

#[test]
fn wl_discard_removes_and_reports() {
    let mut wl = WlRepo::new("Alpha\nBeta");
    let msg = wl_discard("alp", &mut wl, true).unwrap();
    assert_eq!(msg.unwrap(), "wl remove -> Alpha");
    assert_eq!(wl_list(&wl), "Beta");
}

#[test]
fn finish_moves_show_into_history() {
    let mut repo = current_with("My Show", None);
    let mut wl = WlRepo::new("");
    let mut watched = WatchedRepo::new("");
    let msg = show_finish("my", false, false, &mut repo, &mut wl, &mut watched, true).unwrap();
    assert_eq!(msg.unwrap(), "finish -> My Show");
    assert!(repo.list(false).is_err());
    assert!(watched.read().ends_with(" - My Show"));
}

#[test]
fn finish_fresh_records_the_literal_title() {
    let mut repo = current_with("Unrelated", None);
    let mut wl = WlRepo::new("");
    let mut watched = WatchedRepo::new("");
    show_finish("One-off Movie", false, true, &mut repo, &mut wl, &mut watched, false).unwrap();
    assert!(watched.read().ends_with(" - One-off Movie"));
    assert!(repo.normalize_show_pattern("Unrelated").is_ok());
}

#[test]
fn drop_records_the_last_watched_episode() {
    let mut repo = current_with("My Show", None);
    let t = repo.normalize_show_pattern("My Show").unwrap();
    repo.change_episode(&t, 4).unwrap();
    let mut wl = WlRepo::new("");
    let mut watched = WatchedRepo::new("");
    let msg = show_drop("my", false, false, &mut repo, &mut wl, &mut watched, true).unwrap();
    assert_eq!(msg.unwrap(), "drop at 4 -> My Show");
    assert!(watched.read().ends_with(" - (dropped at ep 4) My Show"));
    assert!(repo.list(false).is_err());
}

#[test]
fn drop_with_grab_needs_the_show_in_the_current_list() {
    let mut repo = CurrentRepo::empty();
    let mut wl = WlRepo::new("Queued");
    let before = wl.render();
    let mut watched = WatchedRepo::new("");
    match show_drop("queued", true, false, &mut repo, &mut wl, &mut watched, false) {
        Err(CommandError::Repo(_)) => {}
        _ => panic!("expected a repository error"),
    }
    assert_eq!(wl.render(), before);
    assert_eq!(watched.render(), "");
}

#[test]
fn start_rejects_a_multiline_title() {
    let mut repo = CurrentRepo::empty();
    let mut wl = WlRepo::new("");
    match show_start("a\nb", None, None, false, &mut repo, &mut wl, false) {
        Err(CommandError::Unstorable(s)) => assert_eq!(s, "a\nb"),
        _ => panic!("expected Unstorable"),
    }
    assert!(repo.list(false).is_err());
}

#[test]
fn start_rejects_an_unstorable_link() {
    let mut repo = CurrentRepo::empty();
    let mut wl = WlRepo::new("");
    let bad = "null".to_string();
    match show_start("Show", Some(&bad), None, false, &mut repo, &mut wl, false) {
        Err(CommandError::Unstorable(s)) => assert_eq!(s, "null"),
        _ => panic!("expected Unstorable"),
    }
    let bad = "http://x/\ny".to_string();
    match show_start("Show", None, Some(&bad), false, &mut repo, &mut wl, false) {
        Err(CommandError::Unstorable(s)) => assert_eq!(s, "http://x/\ny"),
        _ => panic!("expected Unstorable"),
    }
    assert!(repo.list(false).is_err());
}

#[test]
fn set_link_rejects_an_unstorable_value() {
    let mut repo = current_with("My Show", Some("http://x/"));
    match show_set_link("my", "null", false, &mut repo, true) {
        Err(CommandError::Unstorable(s)) => assert_eq!(s, "null"),
        _ => panic!("expected Unstorable"),
    }
    match show_set_link("my", "a\nb", true, &mut repo, true) {
        Err(CommandError::Unstorable(s)) => assert_eq!(s, "a\nb"),
        _ => panic!("expected Unstorable"),
    }
    let t = repo.normalize_show_pattern("My Show").unwrap();
    assert_eq!(repo.get_link(&t, false).unwrap(), "http://x/");
}

#[test]
fn rejected_input_never_reaches_the_document() {
    // Every state the commands admit round-trips through the document.
    let mut repo = CurrentRepo::empty();
    let mut wl = WlRepo::new("");
    let link = "http://x/".to_string();
    show_start("Ok Show", Some(&link), None, false, &mut repo, &mut wl, false).unwrap();
    assert!(show_start("bad\ntitle", None, None, false, &mut repo, &mut wl, false).is_err());
    let doc = repo.to_document();
    let reloaded = CurrentRepo::new(doc.as_str()).unwrap();
    assert_eq!(reloaded.to_document(), doc);
}

#[test]
fn listing_commands_render_content() {
    let mut repo = current_with("A", None);
    let msg = show_set_episode("A", 2, &mut repo, false).unwrap();
    assert!(msg.is_none());
    let lines = show_list(false, &repo).unwrap();
    assert_eq!(lines, vec!["A — ep2 — dn0".to_string()]);
    let watched = WatchedRepo::new("x - y\n");
    assert_eq!(watched_list(&watched), "x - y");
}
