//! The command layer: each function resolves the user's pattern, performs the
//! repository mutation or query, and derives the commit message the caller
//! should record — everything a command does short of touching a file, a
//! browser, or source control.

use crate::show_repo::{
    link_ok, list_lines_spec, max_ep_len, max_key_len, opt_ref_view, CurrentRepo, RepoError,
    ShowView,
};
use crate::strkit::{contains_nl, dec_spec, no_nl, str_eq, trim_end_spec, u64_to_string};
use crate::title::{resolve_post, ResolveError, ValidatedTitle};
use crate::watched::{drop_annotation, record_line, stamp_shape, WatchedRepo};
use crate::wl_repo::{remove_lines, WlError, WlRepo};
use vstd::prelude::*;

verus! {

/// Why a command failed.
#[derive(Debug)]
pub enum CommandError {
    /// The pattern resolved to no single title.
    Resolve(ResolveError),
    /// A repository refused the operation.
    Repo(RepoError),
    /// The watch-later queue refused the operation.
    WatchLater(WlError),
    /// The current-shows document cannot store this string: a title or link
    /// holding a newline, or a link spelled exactly `null`.
    Unstorable(String),
}

pub open spec fn msg_watch(episode: u32, t: Seq<char>) -> Seq<char> {
    "watch ep"@ + dec_spec(episode as nat) + " -> "@ + t
}

pub open spec fn msg_download(episode: u32, t: Seq<char>) -> Seq<char> {
    "download ep"@ + dec_spec(episode as nat) + " -> "@ + t
}

pub open spec fn msg_update_link(is_dlink: bool, t: Seq<char>, l: Seq<char>) -> Seq<char> {
    (if is_dlink {
        "update dlink -> "@
    } else {
        "update link -> "@
    }) + t + " -> "@ + l
}

pub open spec fn msg_wl_add(t: Seq<char>) -> Seq<char> {
    "wl add -> "@ + t
}

pub open spec fn msg_wl_remove(t: Seq<char>) -> Seq<char> {
    "wl remove -> "@ + t
}

pub open spec fn msg_start(t: Seq<char>) -> Seq<char> {
    "start -> "@ + t
}

pub open spec fn msg_remove(t: Seq<char>) -> Seq<char> {
    "remove -> "@ + t
}

pub open spec fn msg_finish(t: Seq<char>) -> Seq<char> {
    "finish -> "@ + t
}

pub open spec fn msg_drop(episode: u32, t: Seq<char>) -> Seq<char> {
    "drop at "@ + dec_spec(episode as nat) + " -> "@ + t
}

/// Whether the document can store this string as a link value.
fn link_storable(l: &str) -> (r: bool)
    ensures
        r == link_ok(Some(l@)),
{
    !contains_nl(l) && !str_eq(l, "null")
}

fn cat_text(prefix: &str, title: &str) -> (r: String)
    ensures
        r@ == prefix@ + title@,
{
    let mut r = String::from_str(prefix);
    r.append(title);
    r
}

fn cat_counter(prefix: &str, n: u32, title: &str) -> (r: String)
    ensures
        r@ == prefix@ + dec_spec(n as nat) + " -> "@ + title@,
{
    let mut r = String::from_str(prefix);
    r.append(u64_to_string(n as u64).as_str());
    r.append(" -> ");
    r.append(title);
    proof {
        assert(r@ =~= prefix@ + dec_spec(n as nat) + " -> "@ + title@);
    }
    r
}

fn cat_link(prefix: &str, title: &str, link: &str) -> (r: String)
    ensures
        r@ == prefix@ + title@ + " -> "@ + link@,
{
    let mut r = String::from_str(prefix);
    r.append(title);
    r.append(" -> ");
    r.append(link);
    proof {
        assert(r@ =~= prefix@ + title@ + " -> "@ + link@);
    }
    r
}

/// Sets the last-watched episode of the show the pattern resolves to, and
/// derives the commit message when one was asked for.
pub fn show_set_episode(
    show: &str,
    episode: u32,
    current_model: &mut CurrentRepo,
    should_commit: bool,
) -> (r: Result<Option<String>, CommandError>)
    requires
        old(current_model).wf(),
    ensures
        final(current_model).wf(),
        match r {
            Ok(msg) => exists|t: ValidatedTitle|
                {
                    &&& #[trigger] resolve_post(old(current_model).keys(), show@, Ok(t))
                    &&& old(current_model).has_title(t@)
                    &&& final(current_model).map_view() == old(current_model).map_view().insert(
                        t@,
                        ShowView { episode: episode, ..old(current_model).show_at(t@) },
                    )
                    &&& match msg {
                        Some(m) => should_commit && m@ == msg_watch(episode, t@),
                        None => !should_commit,
                    }
                },
            Err(e) => ({
                &&& *final(current_model) == *old(current_model)
                &&& e matches CommandError::Resolve(re)
                &&& resolve_post(old(current_model).keys(), show@, Err(re))
            }),
        },
{
    let t = match current_model.normalize_show_pattern(show) {
        Ok(t) => t,
        Err(e) => {
            return Err(CommandError::Resolve(e));
        },
    };
    match current_model.change_episode(&t, episode) {
        Ok(()) => {},
        Err(e) => {
            assert(false);
            return Err(CommandError::Repo(e));
        },
    }
    if should_commit {
        Ok(Some(cat_counter("watch ep", episode, t.as_str())))
    } else {
        Ok(None)
    }
}

/// Sets the last-downloaded episode of the show the pattern resolves to.
pub fn show_set_downloaded(
    show: &str,
    episode: u32,
    current_model: &mut CurrentRepo,
    should_commit: bool,
) -> (r: Result<Option<String>, CommandError>)
    requires
        old(current_model).wf(),
    ensures
        final(current_model).wf(),
        match r {
            Ok(msg) => exists|t: ValidatedTitle|
                {
                    &&& #[trigger] resolve_post(old(current_model).keys(), show@, Ok(t))
                    &&& old(current_model).has_title(t@)
                    &&& final(current_model).map_view() == old(current_model).map_view().insert(
                        t@,
                        ShowView { downloaded: episode, ..old(current_model).show_at(t@) },
                    )
                    &&& match msg {
                        Some(m) => should_commit && m@ == msg_download(episode, t@),
                        None => !should_commit,
                    }
                },
            Err(e) => ({
                &&& *final(current_model) == *old(current_model)
                &&& e matches CommandError::Resolve(re)
                &&& resolve_post(old(current_model).keys(), show@, Err(re))
            }),
        },
{
    let t = match current_model.normalize_show_pattern(show) {
        Ok(t) => t,
        Err(e) => {
            return Err(CommandError::Resolve(e));
        },
    };
    match current_model.change_downloaded(&t, episode) {
        Ok(()) => {},
        Err(e) => {
            assert(false);
            return Err(CommandError::Repo(e));
        },
    }
    if should_commit {
        Ok(Some(cat_counter("download ep", episode, t.as_str())))
    } else {
        Ok(None)
    }
}

/// Sets one link field of the show the pattern resolves to. A link the
/// document cannot store (one holding a newline, or spelled exactly `null`)
/// is rejected up front.
pub fn show_set_link(
    show: &str,
    link: &str,
    is_dlink: bool,
    current_model: &mut CurrentRepo,
    should_commit: bool,
) -> (r: Result<Option<String>, CommandError>)
    requires
        old(current_model).wf(),
    ensures
        final(current_model).wf(),
        match r {
            Ok(msg) => exists|t: ValidatedTitle|
                {
                    &&& #[trigger] resolve_post(old(current_model).keys(), show@, Ok(t))
                    &&& old(current_model).has_title(t@)
                    &&& link_ok(Some(link@))
                    &&& final(current_model).map_view() == old(current_model).map_view().insert(
                        t@,
                        if is_dlink {
                            ShowView { dlink: Some(link@), ..old(current_model).show_at(t@) }
                        } else {
                            ShowView { link: Some(link@), ..old(current_model).show_at(t@) }
                        },
                    )
                    &&& match msg {
                        Some(m) => should_commit && m@ == msg_update_link(is_dlink, t@, link@),
                        None => !should_commit,
                    }
                },
            Err(e) => ({
                &&& *final(current_model) == *old(current_model)
                &&& match e {
                    CommandError::Resolve(re) => link_ok(Some(link@)) && resolve_post(
                        old(current_model).keys(),
                        show@,
                        Err(re),
                    ),
                    CommandError::Unstorable(s) => !link_ok(Some(link@)) && s@ == link@,
                    _ => false,
                }
            }),
        },
{
    if !link_storable(link) {
        return Err(CommandError::Unstorable(String::from_str(link)));
    }
    let t = match current_model.normalize_show_pattern(show) {
        Ok(t) => t,
        Err(e) => {
            return Err(CommandError::Resolve(e));
        },
    };
    match current_model.change_link(&t, link, is_dlink) {
        Ok(()) => {},
        Err(e) => {
            assert(false);
            return Err(CommandError::Repo(e));
        },
    }
    if should_commit {
        let m = if is_dlink {
            cat_link("update dlink -> ", t.as_str(), link)
        } else {
            cat_link("update link -> ", t.as_str(), link)
        };
        Ok(Some(m))
    } else {
        Ok(None)
    }
}

/// Removes the show the pattern resolves to from the current list, without
/// recording it as watched.
pub fn show_remove(show: &str, current_model: &mut CurrentRepo, should_commit: bool) -> (r: Result<
    Option<String>,
    CommandError,
>)
    requires
        old(current_model).wf(),
    ensures
        final(current_model).wf(),
        match r {
            Ok(msg) => exists|t: ValidatedTitle|
                {
                    &&& #[trigger] resolve_post(old(current_model).keys(), show@, Ok(t))
                    &&& old(current_model).has_title(t@)
                    &&& final(current_model).map_view() == old(current_model).map_view().remove(t@)
                    &&& match msg {
                        Some(m) => should_commit && m@ == msg_remove(t@),
                        None => !should_commit,
                    }
                },
            Err(e) => ({
                &&& *final(current_model) == *old(current_model)
                &&& e matches CommandError::Resolve(re)
                &&& resolve_post(old(current_model).keys(), show@, Err(re))
            }),
        },
{
    let t = match current_model.normalize_show_pattern(show) {
        Ok(t) => t,
        Err(e) => {
            return Err(CommandError::Resolve(e));
        },
    };
    match current_model.remove(&t) {
        Ok(()) => {},
        Err(e) => {
            assert(false);
            return Err(CommandError::Repo(e));
        },
    }
    if should_commit {
        Ok(Some(cat_text("remove -> ", t.as_str())))
    } else {
        Ok(None)
    }
}

/// Starts tracking a show: optionally grabs it off the watch-later queue
/// first, then inserts it with counters at zero. A title or link the
/// document cannot store (one holding a newline, or a link spelled exactly
/// `null`) is rejected, with nothing changed.
pub fn show_start(
    show: &str,
    link: Option<&String>,
    dlink: Option<&String>,
    grab: bool,
    current_model: &mut CurrentRepo,
    wl_model: &mut WlRepo,
    should_commit: bool,
) -> (r: Result<Option<String>, CommandError>)
    requires
        old(current_model).wf(),
    ensures
        final(current_model).wf(),
        match r {
            Ok(msg) => exists|ttl: Seq<char>|
                {
                    &&& (!grab ==> ttl == show@ && *final(wl_model) == *old(wl_model))
                    &&& (grab ==> exists|t: ValidatedTitle|
                        {
                            &&& #[trigger] resolve_post(old(wl_model).lines_view(), show@, Ok(t))
                            &&& ttl == t@
                            &&& final(wl_model).lines_view() == remove_lines(
                                old(wl_model).lines_view(),
                                ttl,
                            )
                        })
                    &&& no_nl(ttl)
                    &&& link_ok(opt_ref_view(link))
                    &&& link_ok(opt_ref_view(dlink))
                    &&& #[trigger] final(current_model).map_view() == old(
                        current_model,
                    ).map_view().insert(
                        ttl,
                        ShowView {
                            episode: 0,
                            downloaded: 0,
                            link: opt_ref_view(link),
                            dlink: opt_ref_view(dlink),
                        },
                    )
                    &&& match msg {
                        Some(m) => should_commit && m@ == msg_start(ttl),
                        None => !should_commit,
                    }
                },
            Err(e) => ({
                &&& *final(current_model) == *old(current_model)
                &&& *final(wl_model) == *old(wl_model)
                &&& match e {
                    CommandError::Resolve(re) => ({
                        &&& grab
                        &&& link_ok(opt_ref_view(link))
                        &&& link_ok(opt_ref_view(dlink))
                        &&& resolve_post(old(wl_model).lines_view(), show@, Err(re))
                    }),
                    CommandError::Unstorable(s) => ({
                        ||| ({
                            &&& link matches Some(l)
                            &&& s@ == l@
                            &&& !link_ok(Some(l@))
                        })
                        ||| ({
                            &&& link_ok(opt_ref_view(link))
                            &&& dlink matches Some(d)
                            &&& s@ == d@
                            &&& !link_ok(Some(d@))
                        })
                        ||| ({
                            &&& link_ok(opt_ref_view(link))
                            &&& link_ok(opt_ref_view(dlink))
                            &&& !no_nl(s@)
                            &&& (!grab ==> s@ == show@)
                            &&& (grab ==> exists|t: ValidatedTitle|
                                #[trigger] resolve_post(
                                    old(wl_model).lines_view(),
                                    show@,
                                    Ok(t),
                                ) && s@ == t@)
                        })
                    }),
                    _ => false,
                }
            }),
        },
{
    if let Some(l) = link {
        if !link_storable(l.as_str()) {
            return Err(CommandError::Unstorable(l.clone()));
        }
    }
    if let Some(d) = dlink {
        if !link_storable(d.as_str()) {
            return Err(CommandError::Unstorable(d.clone()));
        }
    }
    let title: String = if grab {
        let t = match wl_model.normalize_show_pattern(show) {
            Ok(t) => t,
            Err(e) => {
                return Err(CommandError::Resolve(e));
            },
        };
        if contains_nl(t.as_str()) {
            return Err(CommandError::Unstorable(t.into_string()));
        }
        wl_model.remove(&t);
        t.into_string()
    } else {
        if contains_nl(show) {
            return Err(CommandError::Unstorable(String::from_str(show)));
        }
        String::from_str(show)
    };
    current_model.new_show(title.as_str(), link, dlink);
    if should_commit {
        Ok(Some(cat_text("start -> ", title.as_str())))
    } else {
        Ok(None)
    }
}

/// Adds a title to the watch-later queue.
pub fn wl_add(show: &str, wl_model: &mut WlRepo, should_commit: bool) -> (r: Result<
    Option<String>,
    CommandError,
>)
    ensures
        match r {
            Ok(msg) => ({
                &&& !old(wl_model).lines_view().contains(show@)
                &&& final(wl_model).lines_view() == old(wl_model).lines_view().push(show@)
                &&& match msg {
                    Some(m) => should_commit && m@ == msg_wl_add(show@),
                    None => !should_commit,
                }
            }),
            Err(e) => ({
                &&& *final(wl_model) == *old(wl_model)
                &&& old(wl_model).lines_view().contains(show@)
                &&& e matches CommandError::WatchLater(we)
                &&& we matches WlError::Duplicate(s) && s@ == show@
            }),
        },
{
    match wl_model.add(show) {
        Ok(()) => {},
        Err(e) => {
            return Err(CommandError::WatchLater(e));
        },
    }
    if should_commit {
        Ok(Some(cat_text("wl add -> ", show)))
    } else {
        Ok(None)
    }
}

/// Removes the title the pattern resolves to from the watch-later queue.
pub fn wl_discard(show: &str, wl_model: &mut WlRepo, should_commit: bool) -> (r: Result<
    Option<String>,
    CommandError,
>)
    ensures
        match r {
            Ok(msg) => exists|t: ValidatedTitle|
                {
                    &&& #[trigger] resolve_post(old(wl_model).lines_view(), show@, Ok(t))
                    &&& final(wl_model).lines_view() == remove_lines(
                        old(wl_model).lines_view(),
                        t@,
                    )
                    &&& match msg {
                        Some(m) => should_commit && m@ == msg_wl_remove(t@),
                        None => !should_commit,
                    }
                },
            Err(e) => ({
                &&& *final(wl_model) == *old(wl_model)
                &&& e matches CommandError::Resolve(re)
                &&& resolve_post(old(wl_model).lines_view(), show@, Err(re))
            }),
        },
{
    let t = match wl_model.normalize_show_pattern(show) {
        Ok(t) => t,
        Err(e) => {
            return Err(CommandError::Resolve(e));
        },
    };
    wl_model.remove(&t);
    if should_commit {
        Ok(Some(cat_text("wl remove -> ", t.as_str())))
    } else {
        Ok(None)
    }
}

/// The watch-later queue as the user sees it.
pub fn wl_list(wl_model: &WlRepo) -> (r: String)
    ensures
        r@ == trim_end_spec(wl_model.contents()),
{
    wl_model.list()
}

/// The current-shows listing.
pub fn show_list(links: bool, current_model: &CurrentRepo) -> (r: Result<Vec<String>, CommandError>)
    ensures
        current_model.entries().len() > 0 ==> ({
            &&& r matches Ok(lines)
            &&& lines.deep_view() == list_lines_spec(
                current_model.entries(),
                links,
                max_key_len(current_model.entries()),
                max_ep_len(current_model.entries()),
            )
        }),
        current_model.entries().len() == 0 ==> ({
            &&& r matches Err(e)
            &&& e matches CommandError::Repo(re) && re is Empty
        }),
{
    match current_model.list(links) {
        Ok(lines) => Ok(lines),
        Err(e) => Err(CommandError::Repo(e)),
    }
}

/// The watched history as the user sees it.
pub fn watched_list(watched_model: &WatchedRepo) -> (r: String)
    ensures
        r@ == trim_end_spec(watched_model@),
{
    watched_model.read()
}

/// Finishes a show: takes it off the watch-later queue (`grab`) or the
/// current list (neither flag), or records the title literally (`fresh`), and
/// appends it to the watched history under today's date.
pub fn show_finish(
    show: &str,
    grab: bool,
    fresh: bool,
    current_model: &mut CurrentRepo,
    wl_model: &mut WlRepo,
    watched_model: &mut WatchedRepo,
    should_commit: bool,
) -> (r: Result<Option<String>, CommandError>)
    requires
        old(current_model).wf(),
    ensures
        final(current_model).wf(),
        match r {
            Ok(msg) => exists|ttl: Seq<char>, stamp: Seq<char>|
                {
                    &&& (grab ==> exists|t: ValidatedTitle|
                        {
                            &&& #[trigger] resolve_post(old(wl_model).lines_view(), show@, Ok(t))
                            &&& ttl == t@
                            &&& final(wl_model).lines_view() == remove_lines(
                                old(wl_model).lines_view(),
                                ttl,
                            )
                            &&& *final(current_model) == *old(current_model)
                        })
                    &&& (!grab && !fresh ==> exists|t: ValidatedTitle|
                        {
                            &&& #[trigger] resolve_post(old(current_model).keys(), show@, Ok(t))
                            &&& ttl == t@
                            &&& final(current_model).map_view() == old(
                                current_model,
                            ).map_view().remove(ttl)
                            &&& *final(wl_model) == *old(wl_model)
                        })
                    &&& (!grab && fresh ==> ttl == show@ && *final(current_model) == *old(
                        current_model,
                    ) && *final(wl_model) == *old(wl_model))
                    &&& stamp_shape(stamp)
                    &&& final(watched_model)@ == old(watched_model)@ + #[trigger] record_line(
                        stamp,
                        ttl,
                    )
                    &&& match msg {
                        Some(m) => should_commit && m@ == msg_finish(ttl),
                        None => !should_commit,
                    }
                },
            Err(e) => ({
                &&& *final(current_model) == *old(current_model)
                &&& *final(wl_model) == *old(wl_model)
                &&& *final(watched_model) == *old(watched_model)
                &&& e matches CommandError::Resolve(re)
                &&& (grab ==> resolve_post(old(wl_model).lines_view(), show@, Err(re)))
                &&& (!grab ==> !fresh && resolve_post(old(current_model).keys(), show@, Err(re)))
            }),
        },
{
    let title: String = if grab {
        let t = match wl_model.normalize_show_pattern(show) {
            Ok(t) => t,
            Err(e) => {
                return Err(CommandError::Resolve(e));
            },
        };
        wl_model.remove(&t);
        t.into_string()
    } else if !fresh {
        let t = match current_model.normalize_show_pattern(show) {
            Ok(t) => t,
            Err(e) => {
                return Err(CommandError::Resolve(e));
            },
        };
        match current_model.remove(&t) {
            Ok(()) => {},
            Err(e) => {
                assert(false);
                return Err(CommandError::Repo(e));
            },
        }
        t.into_string()
    } else {
        String::from_str(show)
    };
    watched_model.finish(title.as_str());
    if should_commit {
        Ok(Some(cat_text("finish -> ", title.as_str())))
    } else {
        Ok(None)
    }
}

/// Drops a show: like finishing, but the history line is annotated with the
/// episode the show was dropped at, read from the current list.
pub fn show_drop(
    show: &str,
    grab: bool,
    fresh: bool,
    current_model: &mut CurrentRepo,
    wl_model: &mut WlRepo,
    watched_model: &mut WatchedRepo,
    should_commit: bool,
) -> (r: Result<Option<String>, CommandError>)
    requires
        old(current_model).wf(),
    ensures
        final(current_model).wf(),
        match r {
            Ok(msg) => exists|ttl: Seq<char>, latest: u32, stamp: Seq<char>|
                {
                    &&& (grab ==> exists|t: ValidatedTitle|
                        {
                            &&& #[trigger] resolve_post(old(wl_model).lines_view(), show@, Ok(t))
                            &&& ttl == t@
                            &&& old(current_model).has_title(ttl)
                            &&& latest == old(current_model).show_at(ttl).episode
                            &&& final(wl_model).lines_view() == remove_lines(
                                old(wl_model).lines_view(),
                                ttl,
                            )
                            &&& *final(current_model) == *old(current_model)
                        })
                    &&& (!grab && !fresh ==> exists|t: ValidatedTitle|
                        {
                            &&& #[trigger] resolve_post(old(current_model).keys(), show@, Ok(t))
                            &&& ttl == t@
                            &&& latest == old(current_model).show_at(ttl).episode
                            &&& final(current_model).map_view() == old(
                                current_model,
                            ).map_view().remove(ttl)
                            &&& *final(wl_model) == *old(wl_model)
                        })
                    &&& (!grab && fresh ==> ttl == show@ && latest == 0 && *final(current_model)
                        == *old(current_model) && *final(wl_model) == *old(wl_model))
                    &&& stamp_shape(stamp)
                    &&& final(watched_model)@ == old(watched_model)@ + #[trigger] record_line(
                        stamp,
                        drop_annotation(latest, ttl),
                    )
                    &&& match msg {
                        Some(m) => should_commit && m@ == msg_drop(latest, ttl),
                        None => !should_commit,
                    }
                },
            Err(e) => ({
                &&& *final(current_model) == *old(current_model)
                &&& *final(wl_model) == *old(wl_model)
                &&& *final(watched_model) == *old(watched_model)
                &&& match e {
                    CommandError::Resolve(re) => ({
                        &&& (grab ==> resolve_post(old(wl_model).lines_view(), show@, Err(re)))
                        &&& (!grab ==> !fresh && resolve_post(
                            old(current_model).keys(),
                            show@,
                            Err(re),
                        ))
                    }),
                    CommandError::Repo(re) => ({
                        &&& grab
                        &&& re matches RepoError::NotFound(s)
                        &&& !old(current_model).has_title(s@)
                    }),
                    _ => false,
                }
            }),
        },
{
    let latest_episode: u32;
    let title: String = if grab {
        let t = match wl_model.normalize_show_pattern(show) {
            Ok(t) => t,
            Err(e) => {
                return Err(CommandError::Resolve(e));
            },
        };
        latest_episode = match current_model.get_episode(&t) {
            Ok(n) => n,
            Err(e) => {
                return Err(CommandError::Repo(e));
            },
        };
        wl_model.remove(&t);
        t.into_string()
    } else if !fresh {
        let t = match current_model.normalize_show_pattern(show) {
            Ok(t) => t,
            Err(e) => {
                return Err(CommandError::Resolve(e));
            },
        };
        latest_episode = match current_model.get_episode(&t) {
            Ok(n) => n,
            Err(e) => {
                assert(false);
                return Err(CommandError::Repo(e));
            },
        };
        match current_model.remove(&t) {
            Ok(()) => {},
            Err(e) => {
                assert(false);
                return Err(CommandError::Repo(e));
            },
        }
        t.into_string()
    } else {
        latest_episode = 0;
        String::from_str(show)
    };
    watched_model.drop(latest_episode, title.as_str());
    if should_commit {
        Ok(Some(cat_counter("drop at ", latest_episode, title.as_str())))
    } else {
        Ok(None)
    }
}

} // verus!
