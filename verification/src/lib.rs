//! Tracker for shows in progress: a current-shows repository with episode and
//! download counters and link templates, a watch-later queue, an append-only
//! watched history, and a resolver that turns a partial title into exactly one
//! stored title.

pub mod commands;
pub mod doc;
pub mod show_repo;
pub mod strkit;
pub mod title;
pub mod watched;
pub mod wl_repo;
