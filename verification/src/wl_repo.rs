//! The watch-later queue: an ordered list of titles, one per line, with
//! duplicate-checked insertion, removal, and listing.

use crate::strkit::{join_lines_sep, join_sep, lines_of, split_lines_lossy, str_eq, trim_end_spec,
    trim_end_str};
use crate::title::{resolve_post, ResolveError, ValidatedTitle};
use vstd::prelude::*;

verus! {

/// Adding to the watch-later queue failed.
#[derive(Debug)]
pub enum WlError {
    /// The exact title is already queued; the queue is left unchanged.
    Duplicate(String),
}

/// The titles a caller queued to watch later, in insertion order.
pub struct WlRepo {
    lines: Vec<String>,
}

/// The lines that remain after every line equal to `t` is removed.
pub open spec fn remove_lines(ls: Seq<Seq<char>>, t: Seq<char>) -> Seq<Seq<char>>
    decreases ls.len(),
{
    if ls.len() == 0 {
        Seq::empty()
    } else {
        let pre = remove_lines(ls.drop_last(), t);
        if ls.last() == t {
            pre
        } else {
            pre.push(ls.last())
        }
    }
}

impl WlRepo {
    /// The queued titles, in order.
    pub closed spec fn lines_view(self) -> Seq<Seq<char>> {
        self.lines.deep_view()
    }

    /// The file image: the lines joined by newlines.
    pub open spec fn contents(self) -> Seq<char> {
        join_sep(self.lines_view())
    }

    /// Loads the queue from the watch-later file's content.
    pub fn new(contents: &str) -> (r: WlRepo)
        ensures
            r.lines_view() == lines_of(contents@),
    {
        WlRepo { lines: split_lines_lossy(contents) }
    }

    /// Resolves a user-typed pattern against the queued titles.
    pub fn normalize_show_pattern(&self, pattern: &str) -> (r: Result<
        ValidatedTitle,
        ResolveError,
    >)
        ensures
            resolve_post(self.lines_view(), pattern@, r),
            r matches Ok(t) ==> self.lines_view().contains(t@),
    {
        ValidatedTitle::from_pattern(&self.lines, pattern)
    }

    /// Queues a title; fails with `Duplicate`, changing nothing, when the
    /// exact title is already present.
    pub fn add(&mut self, what: &str) -> (r: Result<(), WlError>)
        ensures
            old(self).lines_view().contains(what@) ==> ({
                &&& r matches Err(e)
                &&& e matches WlError::Duplicate(s) && s@ == what@
                &&& *final(self) == *old(self)
            }),
            !old(self).lines_view().contains(what@) ==> ({
                &&& r is Ok
                &&& final(self).lines_view() == old(self).lines_view().push(what@)
            }),
    {
        let mut i: usize = 0;
        while i < self.lines.len()
            invariant
                i <= self.lines.len(),
                self.lines_view().len() == self.lines.len(),
                forall|k: int| 0 <= k < i ==> self.lines_view()[k] != what@,
            decreases self.lines.len() - i,
        {
            if str_eq(self.lines[i].as_str(), what) {
                assert(self.lines_view()[i as int] == what@);
                assert(self.lines_view().contains(what@));
                return Err(WlError::Duplicate(String::from_str(what)));
            }
            assert(self.lines_view()[i as int] == self.lines@[i as int]@);
            i = i + 1;
        }
        assert(!self.lines_view().contains(what@)) by {
            if self.lines_view().contains(what@) {
                let w = choose|w: int|
                    0 <= w < self.lines_view().len() && self.lines_view()[w] == what@;
            }
        }
        let ghost old_views = self.lines_view();
        self.lines.push(String::from_str(what));
        proof {
            assert(self.lines_view() =~= old_views.push(what@));
        }
        Ok(())
    }

    /// Removes every line equal to the validated title.
    pub fn remove(&mut self, show_title: &ValidatedTitle)
        ensures
            final(self).lines_view() == remove_lines(old(self).lines_view(), show_title@),
    {
        let ghost src = self.lines_view();
        let mut kept: Vec<String> = Vec::new();
        let mut i: usize = 0;
        proof {
            assert(kept.deep_view() =~= remove_lines(src.take(0), show_title@));
        }
        while i < self.lines.len()
            invariant
                i <= self.lines.len(),
                src == self.lines_view(),
                src.len() == self.lines.len(),
                kept.deep_view() == remove_lines(src.take(i as int), show_title@),
            decreases self.lines.len() - i,
        {
            proof {
                assert(src.take(i + 1).drop_last() =~= src.take(i as int));
                assert(src.take(i + 1).last() == src[i as int]);
                assert(src[i as int] == self.lines@[i as int]@);
            }
            let ghost old_views = kept.deep_view();
            if !str_eq(self.lines[i].as_str(), show_title.as_str()) {
                kept.push(self.lines[i].clone());
                proof {
                    assert(kept.deep_view() =~= old_views.push(src[i as int]));
                }
            }
            i = i + 1;
        }
        proof {
            assert(src.take(src.len() as int) =~= src);
        }
        self.lines = kept;
    }

    /// The queue as the user sees it: the file content with trailing
    /// whitespace trimmed.
    pub fn list(&self) -> (r: String)
        ensures
            r@ == trim_end_spec(self.contents()),
    {
        let joined = join_lines_sep(&self.lines);
        trim_end_str(joined.as_str())
    }

    /// The exact text to persist.
    pub fn render(&self) -> (r: String)
        ensures
            r@ == self.contents(),
    {
        join_lines_sep(&self.lines)
    }
}

} // verus!
