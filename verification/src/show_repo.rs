//! The current-shows repository: a map from title to show state, held sorted
//! by title, with counter and link mutation, link derivation, and listing.

use crate::strkit::{
    dec_spec, lemma_lex_connected, lemma_lex_trans, lex_lt, no_nl, str_eq, str_lt, u64_to_string,
};
use crate::title::ValidatedTitle;
use vstd::prelude::*;

verus! {

/// One tracked show: the last watched and last downloaded episode index, and
/// up to two link templates (each a URL prefix that an episode number can be
/// appended to).
pub struct Show {
    pub episode: u32,
    pub downloaded: u32,
    pub link: Option<String>,
    pub dlink: Option<String>,
}

/// The mathematical image of a [`Show`].
pub struct ShowView {
    pub episode: u32,
    pub downloaded: u32,
    pub link: Option<Seq<char>>,
    pub dlink: Option<Seq<char>>,
}

pub open spec fn opt_view(o: Option<String>) -> Option<Seq<char>> {
    match o {
        Some(s) => Some(s@),
        None => None,
    }
}

pub open spec fn opt_ref_view(o: Option<&String>) -> Option<Seq<char>> {
    match o {
        Some(s) => Some(s@),
        None => None,
    }
}

impl View for Show {
    type V = ShowView;

    open spec fn view(&self) -> ShowView {
        ShowView {
            episode: self.episode,
            downloaded: self.downloaded,
            link: opt_view(self.link),
            dlink: opt_view(self.dlink),
        }
    }
}

/// The link a show resolves to: the preferred field when set, the other as a
/// fallback, and the empty string when neither is set.
pub open spec fn resolve_link_spec(s: ShowView, dlink_priority: bool) -> Seq<char> {
    if dlink_priority {
        match s.dlink {
            Some(d) => d,
            None => match s.link {
                Some(l) => l,
                None => Seq::empty(),
            },
        }
    } else {
        match s.link {
            Some(l) => l,
            None => match s.dlink {
                Some(d) => d,
                None => Seq::empty(),
            },
        }
    }
}

impl Show {
    /// A fresh show: both counters at zero, the given links.
    pub fn new(link: Option<&String>, dlink: Option<&String>) -> (r: Show)
        ensures
            r@.episode == 0,
            r@.downloaded == 0,
            r@.link == opt_ref_view(link),
            r@.dlink == opt_ref_view(dlink),
    {
        Show {
            episode: 0,
            downloaded: 0,
            link: match link {
                Some(l) => Some(l.clone()),
                None => None,
            },
            dlink: match dlink {
                Some(d) => Some(d.clone()),
                None => None,
            },
        }
    }

    /// Picks the download link or the episode link, falling back to the other
    /// when the preferred one is missing, and to the empty string when both are.
    pub fn resolve_link(&self, dlink_priority: bool) -> (r: String)
        ensures
            r@ == resolve_link_spec(self@, dlink_priority),
    {
        if dlink_priority {
            if let Some(d) = &self.dlink {
                return d.clone();
            }
            if let Some(l) = &self.link {
                return l.clone();
            }
        } else {
            if let Some(l) = &self.link {
                return l.clone();
            }
            if let Some(d) = &self.dlink {
                return d.clone();
            }
        }
        let r = String::new();
        proof {
            assert(r@ =~= Seq::<char>::empty());
        }
        r
    }
}

/// The persisted document can carry this link field: a link never holds a
/// newline and is never spelled exactly `null` (the document's marker for an
/// unset field).
pub open spec fn link_ok(l: Option<Seq<char>>) -> bool {
    match l {
        Some(x) => no_nl(x) && x != "null"@,
        None => true,
    }
}

/// The persisted document can carry this entry: a single-line title and
/// representable links.
pub open spec fn storable(e: (Seq<char>, ShowView)) -> bool {
    &&& no_nl(e.0)
    &&& link_ok(e.1.link)
    &&& link_ok(e.1.dlink)
}

/// A repository operation failed.
#[derive(Debug)]
pub enum RepoError {
    /// The title addresses no record in the repository.
    NotFound(String),
    /// The repository holds no shows at all, so there is nothing to list.
    Empty,
}

/// The currently-tracked shows, keyed by title, kept strictly sorted by title
/// so that the persisted document is diff-friendly.
pub struct CurrentRepo {
    current: Vec<(String, Show)>,
}

impl CurrentRepo {
    /// The entries, in storage order, as (title, show) pairs.
    pub closed spec fn entries(self) -> Seq<(Seq<char>, ShowView)> {
        Seq::new(self.current@.len() as nat, |i: int| (self.current@[i].0@, self.current@[i].1@))
    }

    /// The titles, in storage order.
    pub open spec fn keys(self) -> Seq<Seq<char>> {
        Seq::new(self.entries().len(), |i: int| self.entries()[i].0)
    }

    /// Well-formed: titles strictly sorted (hence unique), and every entry
    /// representable in the persisted document.
    pub open spec fn wf(self) -> bool {
        &&& forall|i: int, j: int|
            0 <= i < j < self.keys().len() ==> lex_lt(
                #[trigger] self.keys()[i],
                #[trigger] self.keys()[j],
            )
        &&& forall|i: int| 0 <= i < self.entries().len() ==> storable(#[trigger] self.entries()[i])
    }

    /// A record with this exact title exists.
    pub open spec fn has_title(self, k: Seq<char>) -> bool {
        self.keys().contains(k)
    }

    /// The storage index of the record with title `k`.
    pub open spec fn idx_of(self, k: Seq<char>) -> int {
        choose|i: int| 0 <= i < self.keys().len() && self.keys()[i] == k
    }

    /// The show stored under title `k`.
    pub open spec fn show_at(self, k: Seq<char>) -> ShowView {
        self.entries()[self.idx_of(k)].1
    }

    /// The repository as a map from title to show.
    pub open spec fn map_view(self) -> Map<Seq<char>, ShowView> {
        Map::new(|k: Seq<char>| self.has_title(k), |k: Seq<char>| self.show_at(k))
    }

    /// Under well-formedness each title occurs at exactly one index, and
    /// `idx_of` names it.
    pub proof fn lemma_idx_of(self, k: Seq<char>)
        requires
            self.has_title(k),
        ensures
            0 <= self.idx_of(k) < self.entries().len(),
            self.keys()[self.idx_of(k)] == k,
            self.wf() ==> forall|i: int|
                0 <= i < self.keys().len() && self.keys()[i] == k ==> i == self.idx_of(k),
    {
        let witness = choose|i: int| 0 <= i < self.keys().len() && self.keys()[i] == k;
        assert(0 <= witness < self.keys().len() && self.keys()[witness] == k);
        if self.wf() {
            assert forall|i: int|
                0 <= i < self.keys().len() && self.keys()[i] == k implies i == self.idx_of(k) by {
                let j = self.idx_of(k);
                if i < j {
                    lemma_lex_connected(self.keys()[i], self.keys()[j]);
                } else if j < i {
                    lemma_lex_connected(self.keys()[j], self.keys()[i]);
                }
            }
        }
    }

    /// Reading the map at a stored title gives the stored show: the bridge a
    /// caller takes from `map_view` facts to `show_at` facts.
    pub proof fn lemma_map_view_at(self, k: Seq<char>)
        requires
            self.map_view().contains_key(k),
        ensures
            self.has_title(k),
            self.map_view()[k] == self.show_at(k),
    {
    }

    /// An empty repository.
    pub fn empty() -> (r: CurrentRepo)
        ensures
            r.entries() == Seq::<(Seq<char>, ShowView)>::empty(),
            r.wf(),
    {
        let r = CurrentRepo { current: Vec::new() };
        proof {
            assert(r.entries() =~= Seq::<(Seq<char>, ShowView)>::empty());
        }
        r
    }

    /// Wraps already-sorted, representable entries as a repository.
    pub fn from_sorted_entries(v: Vec<(String, Show)>) -> (r: CurrentRepo)
        requires
            forall|i: int, j: int|
                0 <= i < j < v@.len() ==> lex_lt(#[trigger] v@[i].0@, #[trigger] v@[j].0@),
            forall|i: int| 0 <= i < v@.len() ==> storable((#[trigger] v@[i].0@, v@[i].1@)),
        ensures
            r.wf(),
            r.entries() == Seq::new(v@.len() as nat, |i: int| (v@[i].0@, v@[i].1@)),
    {
        let r = CurrentRepo { current: v };
        proof {
            assert(r.entries() =~= Seq::new(r.current@.len() as nat, |i: int| (r.current@[i].0@, r.current@[i].1@)));
            assert(forall|i: int| 0 <= i < r.keys().len() ==> r.keys()[i] == r.current@[i].0@);
        }
        r
    }

    /// How many shows are tracked.
    pub fn len(&self) -> (r: usize)
        ensures
            r == self.entries().len(),
    {
        self.current.len()
    }

    /// The title and show stored at one index.
    pub fn entry_at(&self, i: usize) -> (r: (&String, &Show))
        requires
            i < self.entries().len(),
        ensures
            r.0@ == self.entries()[i as int].0,
            r.1@ == self.entries()[i as int].1,
    {
        (&self.current[i].0, &self.current[i].1)
    }

    /// Finds the storage index of an exact title, if present.
    fn find(&self, title: &str) -> (r: Option<usize>)
        ensures
            match r {
                Some(i) => i < self.entries().len() && self.keys()[i as int] == title@,
                None => !self.has_title(title@),
            },
    {
        let mut i: usize = 0;
        while i < self.current.len()
            invariant
                i <= self.current.len(),
                self.entries().len() == self.current.len(),
                forall|k: int| 0 <= k < i ==> self.keys()[k] != title@,
            decreases self.current.len() - i,
        {
            if str_eq(self.current[i].0.as_str(), title) {
                assert(self.keys()[i as int] == title@);
                return Some(i);
            }
            assert(self.keys()[i as int] == self.current@[i as int].0@);
            i = i + 1;
        }
        assert(!self.has_title(title@)) by {
            if self.has_title(title@) {
                let w = choose|w: int| 0 <= w < self.keys().len() && self.keys()[w] == title@;
            }
        }
        None
    }

    /// Replacing the value at one index leaves the keys alone and updates the
    /// map at that key.
    proof fn lemma_update_map(a: CurrentRepo, b: CurrentRepo, i: int, v: ShowView)
        requires
            a.wf(),
            0 <= i < a.entries().len(),
            link_ok(v.link),
            link_ok(v.dlink),
            b.entries() == a.entries().update(i, (a.entries()[i].0, v)),
        ensures
            b.wf(),
            b.has_title(a.entries()[i].0),
            b.map_view() == a.map_view().insert(a.entries()[i].0, v),
    {
        let k = a.entries()[i].0;
        assert(b.keys() =~= a.keys());
        assert(a.keys()[i] == k);
        assert(b.has_title(k));
        assert forall|j: int| 0 <= j < b.entries().len() implies storable(
            #[trigger] b.entries()[j],
        ) by {
            if j != i {
                assert(b.entries()[j] == a.entries()[j]);
                assert(storable(a.entries()[j]));
            } else {
                assert(storable(a.entries()[i]));
                assert(b.entries()[i].0 == k);
            }
        }
        assert forall|k2: Seq<char>| true implies #[trigger] a.map_view().insert(k, v).contains_key(
            k2,
        ) == b.map_view().contains_key(k2) by {}
        assert forall|k2: Seq<char>| b.map_view().contains_key(k2) implies b.map_view()[k2]
            == a.map_view().insert(k, v)[k2] by {
            b.lemma_idx_of(k2);
            a.lemma_idx_of(k2);
            let jb = b.idx_of(k2);
            let ja = a.idx_of(k2);
            assert(a.keys()[jb] == k2);
            assert(jb == ja);
            if k2 == k {
                assert(ja == i) by {
                    a.lemma_idx_of(k);
                }
                assert(b.entries()[jb].1 == v);
            } else {
                assert(ja != i) by {
                    if ja == i {
                        assert(k2 == a.keys()[i]);
                    }
                }
                assert(b.entries()[jb] == a.entries()[ja]);
            }
        }
        assert(b.map_view() =~= a.map_view().insert(k, v));
    }

    /// Removing the entry at one index removes exactly its key from the map.
    proof fn lemma_remove_map(a: CurrentRepo, b: CurrentRepo, i: int)
        requires
            a.wf(),
            0 <= i < a.entries().len(),
            b.entries() == a.entries().remove(i),
        ensures
            b.wf(),
            b.map_view() == a.map_view().remove(a.entries()[i].0),
    {
        let k = a.entries()[i].0;
        assert(b.keys() =~= a.keys().remove(i));
        assert(a.keys()[i] == k);
        assert forall|j: int| 0 <= j < b.entries().len() implies storable(
            #[trigger] b.entries()[j],
        ) by {
            let ja = if j < i { j } else { j + 1 };
            assert(b.entries()[j] == a.entries()[ja]);
            assert(storable(a.entries()[ja]));
        }
        assert forall|x: int, y: int| 0 <= x < y < b.keys().len() implies lex_lt(
            #[trigger] b.keys()[x],
            #[trigger] b.keys()[y],
        ) by {
            let xa = if x < i { x } else { x + 1 };
            let ya = if y < i { y } else { y + 1 };
            assert(b.keys()[x] == a.keys()[xa]);
            assert(b.keys()[y] == a.keys()[ya]);
        }
        assert(!b.has_title(k)) by {
            if b.has_title(k) {
                let w = choose|w: int| 0 <= w < b.keys().len() && b.keys()[w] == k;
                let wa = if w < i { w } else { w + 1 };
                assert(a.keys()[wa] == k);
                assert(wa != i);
                if wa < i {
                    lemma_lex_connected(a.keys()[wa], a.keys()[i]);
                } else {
                    lemma_lex_connected(a.keys()[i], a.keys()[wa]);
                }
            }
        }
        assert forall|k2: Seq<char>| true implies #[trigger] b.map_view().contains_key(k2) == a
            .map_view().remove(k).contains_key(k2) by {
            if k2 == k {
                assert(!b.has_title(k));
            } else {
                if a.has_title(k2) {
                    a.lemma_idx_of(k2);
                    let ja = a.idx_of(k2);
                    assert(ja != i) by {
                        if ja == i {
                            assert(k2 == a.keys()[i]);
                        }
                    }
                    let jb = if ja < i { ja } else { ja - 1 };
                    assert(b.keys()[jb] == a.keys()[ja]);
                    assert(b.has_title(k2));
                }
                if b.has_title(k2) {
                    b.lemma_idx_of(k2);
                    let jb = b.idx_of(k2);
                    let ja = if jb < i { jb } else { jb + 1 };
                    assert(a.keys()[ja] == b.keys()[jb]);
                    assert(a.has_title(k2));
                }
            }
        }
        assert forall|k2: Seq<char>| b.map_view().contains_key(k2) implies b.map_view()[k2]
            == a.map_view().remove(k)[k2] by {
            b.lemma_idx_of(k2);
            a.lemma_idx_of(k2);
            let jb = b.idx_of(k2);
            let ja = a.idx_of(k2);
            let ja2 = if jb < i { jb } else { jb + 1 };
            assert(a.keys()[ja2] == b.keys()[jb]);
            assert(ja == ja2);
            assert(b.entries()[jb] == a.entries()[ja2]);
        }
        assert(b.map_view() =~= a.map_view().remove(k));
    }

    /// Inserting an entry at its sorted position keeps well-formedness and
    /// inserts exactly its key into the map.
    proof fn lemma_insert_map(a: CurrentRepo, b: CurrentRepo, i: int, k: Seq<char>, v: ShowView)
        requires
            a.wf(),
            0 <= i <= a.entries().len(),
            no_nl(k),
            link_ok(v.link),
            link_ok(v.dlink),
            b.entries() == a.entries().insert(i, (k, v)),
            forall|j: int| 0 <= j < i ==> lex_lt(#[trigger] a.keys()[j], k),
            forall|j: int| i <= j < a.keys().len() ==> lex_lt(k, #[trigger] a.keys()[j]),
        ensures
            b.wf(),
            b.map_view() == a.map_view().insert(k, v),
    {
        assert(b.keys() =~= a.keys().insert(i, k));
        assert forall|j: int| 0 <= j < b.entries().len() implies storable(
            #[trigger] b.entries()[j],
        ) by {
            if j < i {
                assert(b.entries()[j] == a.entries()[j]);
                assert(storable(a.entries()[j]));
            } else if j == i {
                assert(b.entries()[i] == (k, v));
            } else {
                assert(b.entries()[j] == a.entries()[j - 1]);
                assert(storable(a.entries()[j - 1]));
            }
        }
        assert forall|x: int, y: int| 0 <= x < y < b.keys().len() implies lex_lt(
            #[trigger] b.keys()[x],
            #[trigger] b.keys()[y],
        ) by {
            if x < i && y == i {
                assert(b.keys()[x] == a.keys()[x]);
            } else if x == i && y > i {
                assert(b.keys()[y] == a.keys()[y - 1]);
            } else if x < i && y > i {
                assert(b.keys()[x] == a.keys()[x]);
                assert(b.keys()[y] == a.keys()[y - 1]);
            } else if y < i {
                assert(b.keys()[x] == a.keys()[x]);
                assert(b.keys()[y] == a.keys()[y]);
            } else {
                assert(x > i || (x == i && y == i));
                assert(b.keys()[x] == a.keys()[x - 1]);
                assert(b.keys()[y] == a.keys()[y - 1]);
            }
        }
        assert(b.keys()[i] == k);
        assert(b.has_title(k));
        assert forall|k2: Seq<char>| true implies #[trigger] b.map_view().contains_key(k2) == a
            .map_view().insert(k, v).contains_key(k2) by {
            if k2 != k {
                if a.has_title(k2) {
                    a.lemma_idx_of(k2);
                    let ja = a.idx_of(k2);
                    let jb = if ja < i { ja } else { ja + 1 };
                    assert(b.keys()[jb] == a.keys()[ja]);
                    assert(b.has_title(k2));
                }
                if b.has_title(k2) {
                    b.lemma_idx_of(k2);
                    let jb = b.idx_of(k2);
                    assert(jb != i) by {
                        if jb == i {
                            assert(k2 == b.keys()[i]);
                        }
                    }
                    let ja = if jb < i { jb } else { jb - 1 };
                    assert(a.keys()[ja] == b.keys()[jb]);
                    assert(a.has_title(k2));
                }
            }
        }
        assert forall|k2: Seq<char>| b.map_view().contains_key(k2) implies b.map_view()[k2]
            == a.map_view().insert(k, v)[k2] by {
            b.lemma_idx_of(k2);
            let jb = b.idx_of(k2);
            if k2 == k {
                assert(jb == i) by {
                    b.lemma_idx_of(k);
                }
                assert(b.entries()[i].1 == v);
            } else {
                assert(jb != i) by {
                    if jb == i {
                        assert(k2 == b.keys()[i]);
                    }
                }
                a.lemma_idx_of(k2);
                let ja2 = if jb < i { jb } else { jb - 1 };
                assert(a.keys()[ja2] == b.keys()[jb]);
                assert(a.idx_of(k2) == ja2);
                assert(b.entries()[jb] == a.entries()[ja2]);
            }
        }
        assert(b.map_view() =~= a.map_view().insert(k, v));
    }

    /// Resolves a user-typed pattern against the stored titles.
    pub fn normalize_show_pattern(&self, pattern: &str) -> (r: Result<
        ValidatedTitle,
        crate::title::ResolveError,
    >)
        ensures
            crate::title::resolve_post(self.keys(), pattern@, r),
            r matches Ok(t) ==> self.has_title(t@),
    {
        let mut titles: Vec<String> = Vec::new();
        let mut i: usize = 0;
        proof {
            assert(titles.deep_view() =~= self.keys().take(0));
        }
        while i < self.current.len()
            invariant
                i <= self.current.len(),
                self.entries().len() == self.current.len(),
                titles.deep_view() == self.keys().take(i as int),
            decreases self.current.len() - i,
        {
            let ghost old_views = titles.deep_view();
            titles.push(self.current[i].0.clone());
            proof {
                assert(self.keys()[i as int] == self.current@[i as int].0@);
                assert(titles.deep_view() =~= old_views.push(self.keys()[i as int]));
                assert(titles.deep_view() =~= self.keys().take(i + 1));
            }
            i = i + 1;
        }
        proof {
            assert(self.keys().take(self.keys().len() as int) =~= self.keys());
        }
        ValidatedTitle::from_pattern(&titles, pattern)
    }

    /// Inserts a fresh show under `show_title`, counters at zero; an existing
    /// record under the same title is overwritten (last write wins). The
    /// title and links must be representable in the persisted document:
    /// single-line, and no link spelled exactly `null`.
    pub fn new_show(&mut self, show_title: &str, link: Option<&String>, dlink: Option<&String>)
        requires
            old(self).wf(),
            no_nl(show_title@),
            link_ok(opt_ref_view(link)),
            link_ok(opt_ref_view(dlink)),
        ensures
            final(self).wf(),
            final(self).map_view() == old(self).map_view().insert(
                show_title@,
                ShowView {
                    episode: 0,
                    downloaded: 0,
                    link: opt_ref_view(link),
                    dlink: opt_ref_view(dlink),
                },
            ),
    {
        let show = Show::new(link, dlink);
        let ghost v = show@;
        let mut pos: usize = 0;
        while pos < self.current.len() && str_lt(self.current[pos].0.as_str(), show_title)
            invariant
                pos <= self.current.len(),
                self.entries().len() == self.current.len(),
                forall|j: int| 0 <= j < pos ==> lex_lt(#[trigger] self.keys()[j], show_title@),
            decreases self.current.len() - pos,
        {
            assert(self.keys()[pos as int] == self.current@[pos as int].0@);
            pos = pos + 1;
        }
        assert(pos < self.current.len() ==> !lex_lt(self.keys()[pos as int], show_title@));
        let ghost prev = *self;
        if pos < self.current.len() && str_eq(self.current[pos].0.as_str(), show_title) {
            let slot = vstd::std_specs::vec::vec_index_mut(&mut self.current, pos);
            slot.1 = show;
            proof {
                assert(self.entries() =~= prev.entries().update(
                    pos as int,
                    (prev.entries()[pos as int].0, v),
                ));
                Self::lemma_update_map(prev, *self, pos as int, v);
                assert(prev.entries()[pos as int].0 == show_title@);
            }
        } else {
            proof {
                if pos < self.current.len() {
                    lemma_lex_connected(self.keys()[pos as int], show_title@);
                }
                assert(forall|j: int|
                    pos <= j < prev.keys().len() ==> lex_lt(
                        show_title@,
                        #[trigger] prev.keys()[j],
                    )) by {
                    assert forall|j: int| pos <= j < prev.keys().len() implies lex_lt(
                        show_title@,
                        #[trigger] prev.keys()[j],
                    ) by {
                        if j > pos {
                            lemma_lex_trans(
                                show_title@,
                                prev.keys()[pos as int],
                                prev.keys()[j],
                            );
                        }
                    }
                }
            }
            self.current.insert(pos, (String::from_str(show_title), show));
            proof {
                assert(self.entries() =~= prev.entries().insert(pos as int, (show_title@, v)));
                Self::lemma_insert_map(prev, *self, pos as int, show_title@, v);
            }
        }
    }

    /// Deletes the record under the validated title; `NotFound` when no such
    /// record exists.
    pub fn remove(&mut self, show_title: &ValidatedTitle) -> (r: Result<(), RepoError>)
        requires
            old(self).wf(),
        ensures
            final(self).wf(),
            old(self).has_title(show_title@) ==> ({
                &&& r is Ok
                &&& final(self).map_view() == old(self).map_view().remove(show_title@)
            }),
            !old(self).has_title(show_title@) ==> ({
                &&& r matches Err(e)
                &&& e matches RepoError::NotFound(s) && s@ == show_title@
                &&& *final(self) == *old(self)
            }),
    {
        let ghost prev = *self;
        match self.find(show_title.as_str()) {
            Some(i) => {
                self.current.remove(i);
                proof {
                    assert(self.entries() =~= prev.entries().remove(i as int));
                    Self::lemma_remove_map(prev, *self, i as int);
                    assert(prev.entries()[i as int].0 == show_title@);
                }
                Ok(())
            },
            None => Err(RepoError::NotFound(String::from_str(show_title.as_str()))),
        }
    }

    /// Sets the last-watched episode counter to an absolute value.
    pub fn change_episode(&mut self, show_title: &ValidatedTitle, new_episode: u32) -> (r: Result<
        (),
        RepoError,
    >)
        requires
            old(self).wf(),
        ensures
            final(self).wf(),
            old(self).has_title(show_title@) ==> ({
                &&& r is Ok
                &&& final(self).map_view() == old(self).map_view().insert(
                    show_title@,
                    ShowView {
                        episode: new_episode,
                        ..old(self).show_at(show_title@)
                    },
                )
            }),
            !old(self).has_title(show_title@) ==> ({
                &&& r matches Err(e)
                &&& e matches RepoError::NotFound(s) && s@ == show_title@
                &&& *final(self) == *old(self)
            }),
    {
        let ghost prev = *self;
        match self.find(show_title.as_str()) {
            Some(i) => {
                let slot = vstd::std_specs::vec::vec_index_mut(&mut self.current, i);
                slot.1.episode = new_episode;
                proof {
                    let v = self.current@[i as int].1@;
                    assert(self.entries() =~= prev.entries().update(
                        i as int,
                        (prev.entries()[i as int].0, v),
                    ));
                    assert(storable(prev.entries()[i as int]));
                    Self::lemma_update_map(prev, *self, i as int, v);
                    assert(prev.entries()[i as int].0 == show_title@);
                    prev.lemma_idx_of(show_title@);
                    assert(prev.show_at(show_title@) == prev.entries()[i as int].1);
                }
                Ok(())
            },
            None => Err(RepoError::NotFound(String::from_str(show_title.as_str()))),
        }
    }

    /// Sets the last-downloaded episode counter to an absolute value.
    pub fn change_downloaded(
        &mut self,
        show_title: &ValidatedTitle,
        new_downloaded: u32,
    ) -> (r: Result<(), RepoError>)
        requires
            old(self).wf(),
        ensures
            final(self).wf(),
            old(self).has_title(show_title@) ==> ({
                &&& r is Ok
                &&& final(self).map_view() == old(self).map_view().insert(
                    show_title@,
                    ShowView {
                        downloaded: new_downloaded,
                        ..old(self).show_at(show_title@)
                    },
                )
            }),
            !old(self).has_title(show_title@) ==> ({
                &&& r matches Err(e)
                &&& e matches RepoError::NotFound(s) && s@ == show_title@
                &&& *final(self) == *old(self)
            }),
    {
        let ghost prev = *self;
        match self.find(show_title.as_str()) {
            Some(i) => {
                let slot = vstd::std_specs::vec::vec_index_mut(&mut self.current, i);
                slot.1.downloaded = new_downloaded;
                proof {
                    let v = self.current@[i as int].1@;
                    assert(self.entries() =~= prev.entries().update(
                        i as int,
                        (prev.entries()[i as int].0, v),
                    ));
                    assert(storable(prev.entries()[i as int]));
                    Self::lemma_update_map(prev, *self, i as int, v);
                    assert(prev.entries()[i as int].0 == show_title@);
                    prev.lemma_idx_of(show_title@);
                    assert(prev.show_at(show_title@) == prev.entries()[i as int].1);
                }
                Ok(())
            },
            None => Err(RepoError::NotFound(String::from_str(show_title.as_str()))),
        }
    }

    /// Sets one of the two link fields, leaving the other alone. The new link
    /// must be representable in the persisted document: single-line and not
    /// spelled exactly `null`.
    pub fn change_link(
        &mut self,
        show_title: &ValidatedTitle,
        new_link: &str,
        is_dlink: bool,
    ) -> (r: Result<(), RepoError>)
        requires
            old(self).wf(),
            no_nl(new_link@),
            new_link@ != "null"@,
        ensures
            final(self).wf(),
            old(self).has_title(show_title@) ==> ({
                &&& r is Ok
                &&& final(self).map_view() == old(self).map_view().insert(
                    show_title@,
                    if is_dlink {
                        ShowView {
                            dlink: Some(new_link@),
                            ..old(self).show_at(show_title@)
                        }
                    } else {
                        ShowView {
                            link: Some(new_link@),
                            ..old(self).show_at(show_title@)
                        }
                    },
                )
            }),
            !old(self).has_title(show_title@) ==> ({
                &&& r matches Err(e)
                &&& e matches RepoError::NotFound(s) && s@ == show_title@
                &&& *final(self) == *old(self)
            }),
    {
        let ghost prev = *self;
        match self.find(show_title.as_str()) {
            Some(i) => {
                let slot = vstd::std_specs::vec::vec_index_mut(&mut self.current, i);
                if is_dlink {
                    slot.1.dlink = Some(String::from_str(new_link));
                } else {
                    slot.1.link = Some(String::from_str(new_link));
                }
                proof {
                    let v = self.current@[i as int].1@;
                    assert(self.entries() =~= prev.entries().update(
                        i as int,
                        (prev.entries()[i as int].0, v),
                    ));
                    assert(storable(prev.entries()[i as int]));
                    Self::lemma_update_map(prev, *self, i as int, v);
                    assert(prev.entries()[i as int].0 == show_title@);
                    prev.lemma_idx_of(show_title@);
                    assert(prev.show_at(show_title@) == prev.entries()[i as int].1);
                }
                Ok(())
            },
            None => Err(RepoError::NotFound(String::from_str(show_title.as_str()))),
        }
    }

    /// The last-watched episode counter.
    pub fn get_episode(&self, show_title: &ValidatedTitle) -> (r: Result<u32, RepoError>)
        requires
            self.wf(),
        ensures
            self.has_title(show_title@) ==> ({
                &&& r matches Ok(v)
                &&& v == self.show_at(show_title@).episode
            }),
            !self.has_title(show_title@) ==> ({
                &&& r matches Err(e)
                &&& e matches RepoError::NotFound(s) && s@ == show_title@
            }),
    {
        match self.find(show_title.as_str()) {
            Some(i) => {
                proof {
                    self.lemma_idx_of(show_title@);
                }
                Ok(self.current[i].1.episode)
            },
            None => Err(RepoError::NotFound(String::from_str(show_title.as_str()))),
        }
    }

    /// The last-downloaded episode counter.
    pub fn get_downloaded(&self, show_title: &ValidatedTitle) -> (r: Result<u32, RepoError>)
        requires
            self.wf(),
        ensures
            self.has_title(show_title@) ==> ({
                &&& r matches Ok(v)
                &&& v == self.show_at(show_title@).downloaded
            }),
            !self.has_title(show_title@) ==> ({
                &&& r matches Err(e)
                &&& e matches RepoError::NotFound(s) && s@ == show_title@
            }),
    {
        match self.find(show_title.as_str()) {
            Some(i) => {
                proof {
                    self.lemma_idx_of(show_title@);
                }
                Ok(self.current[i].1.downloaded)
            },
            None => Err(RepoError::NotFound(String::from_str(show_title.as_str()))),
        }
    }

    /// The stored link of a show, download-first or episode-first.
    pub fn get_link(&self, show_title: &ValidatedTitle, dlink: bool) -> (r: Result<
        String,
        RepoError,
    >)
        requires
            self.wf(),
        ensures
            self.has_title(show_title@) ==> ({
                &&& r matches Ok(l)
                &&& l@ == resolve_link_spec(self.show_at(show_title@), dlink)
            }),
            !self.has_title(show_title@) ==> ({
                &&& r matches Err(e)
                &&& e matches RepoError::NotFound(s) && s@ == show_title@
            }),
    {
        match self.find(show_title.as_str()) {
            Some(i) => {
                proof {
                    self.lemma_idx_of(show_title@);
                }
                Ok(self.current[i].1.resolve_link(dlink))
            },
            None => Err(RepoError::NotFound(String::from_str(show_title.as_str()))),
        }
    }

    /// The episode link with the next episode index appended.
    pub fn get_next_episode_link(&self, show_title: &ValidatedTitle) -> (r: Result<
        String,
        RepoError,
    >)
        requires
            self.wf(),
        ensures
            self.has_title(show_title@) ==> ({
                &&& r matches Ok(l)
                &&& l@ == resolve_link_spec(self.show_at(show_title@), false) + dec_spec(
                    (self.show_at(show_title@).episode + 1) as nat,
                )
            }),
            !self.has_title(show_title@) ==> ({
                &&& r matches Err(e)
                &&& e matches RepoError::NotFound(s) && s@ == show_title@
            }),
    {
        match self.find(show_title.as_str()) {
            Some(i) => {
                proof {
                    self.lemma_idx_of(show_title@);
                }
                let show = &self.current[i].1;
                let mut l = show.resolve_link(false);
                let n = u64_to_string(show.episode as u64 + 1);
                l.append(n.as_str());
                Ok(l)
            },
            None => Err(RepoError::NotFound(String::from_str(show_title.as_str()))),
        }
    }

    /// The download link with the next download index appended.
    pub fn get_next_download_link(&self, show_title: &ValidatedTitle) -> (r: Result<
        String,
        RepoError,
    >)
        requires
            self.wf(),
        ensures
            self.has_title(show_title@) ==> ({
                &&& r matches Ok(l)
                &&& l@ == resolve_link_spec(self.show_at(show_title@), true) + dec_spec(
                    (self.show_at(show_title@).downloaded + 1) as nat,
                )
            }),
            !self.has_title(show_title@) ==> ({
                &&& r matches Err(e)
                &&& e matches RepoError::NotFound(s) && s@ == show_title@
            }),
    {
        match self.find(show_title.as_str()) {
            Some(i) => {
                proof {
                    self.lemma_idx_of(show_title@);
                }
                let show = &self.current[i].1;
                let mut l = show.resolve_link(true);
                let n = u64_to_string(show.downloaded as u64 + 1);
                l.append(n.as_str());
                Ok(l)
            },
            None => Err(RepoError::NotFound(String::from_str(show_title.as_str()))),
        }
    }
}

/// Setting the watched episode to `n` and then asking for the next episode
/// link yields the stored link with `n + 1` appended: counters and link
/// derivation round-trip through the repository.
pub proof fn lemma_next_episode_link_round_trip(
    a: CurrentRepo,
    b: CurrentRepo,
    t: Seq<char>,
    n: u32,
)
    requires
        a.wf(),
        a.has_title(t),
        b.wf(),
        b.map_view() == a.map_view().insert(t, ShowView { episode: n, ..a.show_at(t) }),
    ensures
        b.has_title(t),
        resolve_link_spec(b.show_at(t), false) + dec_spec((b.show_at(t).episode + 1) as nat)
            == resolve_link_spec(a.show_at(t), false) + dec_spec((n + 1) as nat),
{
    let v = ShowView { episode: n, ..a.show_at(t) };
    assert(b.map_view().contains_key(t));
    b.lemma_map_view_at(t);
    assert(b.show_at(t) == v);
}

/// The same round trip for the download counter and the download link.
pub proof fn lemma_next_download_link_round_trip(
    a: CurrentRepo,
    b: CurrentRepo,
    t: Seq<char>,
    n: u32,
)
    requires
        a.wf(),
        a.has_title(t),
        b.wf(),
        b.map_view() == a.map_view().insert(t, ShowView { downloaded: n, ..a.show_at(t) }),
    ensures
        b.has_title(t),
        resolve_link_spec(b.show_at(t), true) + dec_spec((b.show_at(t).downloaded + 1) as nat)
            == resolve_link_spec(a.show_at(t), true) + dec_spec((n + 1) as nat),
{
    let v = ShowView { downloaded: n, ..a.show_at(t) };
    assert(b.map_view().contains_key(t));
    b.lemma_map_view_at(t);
    assert(b.show_at(t) == v);
}

/// Removing a show and starting one again under the same title yields a
/// record with both counters at zero, exactly as if the title had never been
/// tracked: creation always starts at zero, whatever was stored before.
pub proof fn lemma_restart_resets_counters(
    a: CurrentRepo,
    b: CurrentRepo,
    c: CurrentRepo,
    t: Seq<char>,
    link: Option<Seq<char>>,
    dlink: Option<Seq<char>>,
)
    requires
        b.map_view() == a.map_view().remove(t),
        c.map_view() == b.map_view().insert(
            t,
            ShowView { episode: 0, downloaded: 0, link: link, dlink: dlink },
        ),
    ensures
        c.map_view() == a.map_view().insert(
            t,
            ShowView { episode: 0, downloaded: 0, link: link, dlink: dlink },
        ),
        c.has_title(t),
        c.show_at(t).episode == 0,
        c.show_at(t).downloaded == 0,
{
    let v = ShowView { episode: 0, downloaded: 0, link: link, dlink: dlink };
    assert(c.map_view() =~= a.map_view().insert(t, v));
    assert(c.map_view().contains_key(t));
    c.lemma_map_view_at(t);
    assert(c.show_at(t) == v);
}

/// `n` spaces.
pub open spec fn spaces_spec(n: nat) -> Seq<char> {
    Seq::new(n, |i: int| ' ')
}

fn spaces(n: usize) -> (r: String)
    ensures
        r@ == spaces_spec(n as nat),
{
    let mut r = String::new();
    let mut i: usize = 0;
    proof {
        assert(r@ =~= spaces_spec(0));
    }
    while i < n
        invariant
            i <= n,
            r@ == spaces_spec(i as nat),
        decreases n - i,
    {
        r.append(" ");
        proof {
            reveal_strlit(" ");
            assert(r@ =~= spaces_spec((i + 1) as nat));
        }
        i = i + 1;
    }
    r
}

/// The longest title length among the entries.
pub open spec fn max_key_len(es: Seq<(Seq<char>, ShowView)>) -> nat
    decreases es.len(),
{
    if es.len() == 0 {
        0
    } else {
        let rest = max_key_len(es.drop_last());
        if es.last().0.len() > rest {
            es.last().0.len()
        } else {
            rest
        }
    }
}

/// The widest decimal rendering of an episode counter among the entries.
pub open spec fn max_ep_len(es: Seq<(Seq<char>, ShowView)>) -> nat
    decreases es.len(),
{
    if es.len() == 0 {
        0
    } else {
        let rest = max_ep_len(es.drop_last());
        if dec_spec(es.last().1.episode as nat).len() > rest {
            dec_spec(es.last().1.episode as nat).len()
        } else {
            rest
        }
    }
}

pub proof fn lemma_max_key_len(es: Seq<(Seq<char>, ShowView)>, i: int)
    requires
        0 <= i < es.len(),
    ensures
        es[i].0.len() <= max_key_len(es),
    decreases es.len(),
{
    if i < es.len() - 1 {
        lemma_max_key_len(es.drop_last(), i);
        assert(es.drop_last()[i] == es[i]);
    }
}

pub proof fn lemma_max_ep_len(es: Seq<(Seq<char>, ShowView)>, i: int)
    requires
        0 <= i < es.len(),
    ensures
        dec_spec(es[i].1.episode as nat).len() <= max_ep_len(es),
    decreases es.len(),
{
    if i < es.len() - 1 {
        lemma_max_ep_len(es.drop_last(), i);
        assert(es.drop_last()[i] == es[i]);
    }
}

/// One column-aligned listing line: title padded to the title column, the
/// episode counter padded to the episode column, then the download counter.
pub open spec fn plain_line(e: (Seq<char>, ShowView), tw: nat, ew: nat) -> Seq<char> {
    e.0 + spaces_spec((tw - e.0.len()) as nat) + " — ep"@ + dec_spec(e.1.episode as nat)
        + spaces_spec((ew - dec_spec(e.1.episode as nat).len()) as nat) + " — dn"@ + dec_spec(
        e.1.downloaded as nat,
    )
}

/// The unpadded heading line used when links are shown too.
pub open spec fn head_line(e: (Seq<char>, ShowView)) -> Seq<char> {
    e.0 + " — ep"@ + dec_spec(e.1.episode as nat) + " — dn"@ + dec_spec(e.1.downloaded as nat)
}

pub open spec fn link_line(l: Option<Seq<char>>) -> Seq<char> {
    "  link: "@ + match l {
        Some(x) => x,
        None => "empty"@,
    }
}

pub open spec fn dlink_line(l: Option<Seq<char>>) -> Seq<char> {
    "  dlink: "@ + match l {
        Some(x) => x,
        None => "empty"@,
    }
}

/// The whole listing, with the title and episode column widths fixed up
/// front: one aligned line per show, or three lines per show when links are
/// shown.
pub open spec fn list_lines_spec(
    es: Seq<(Seq<char>, ShowView)>,
    links: bool,
    tw: nat,
    ew: nat,
) -> Seq<Seq<char>>
    decreases es.len(),
{
    if es.len() == 0 {
        Seq::empty()
    } else {
        let pre = list_lines_spec(es.drop_last(), links, tw, ew);
        let e = es.last();
        if links {
            pre + seq![head_line(e), link_line(e.1.link), dlink_line(e.1.dlink)]
        } else {
            pre.push(plain_line(e, tw, ew))
        }
    }
}

impl CurrentRepo {
    /// Renders the listing: per show the title and both counters, column
    /// aligned; or, with `should_links`, also each link field on its own line.
    /// With nothing to list, fails with `Empty`.
    pub fn list(&self, should_links: bool) -> (r: Result<Vec<String>, RepoError>)
        ensures
            self.entries().len() > 0 ==> ({
                &&& r matches Ok(lines)
                &&& lines.deep_view() == list_lines_spec(
                    self.entries(),
                    should_links,
                    max_key_len(self.entries()),
                    max_ep_len(self.entries()),
                )
            }),
            self.entries().len() == 0 ==> ({
                &&& r matches Err(e)
                &&& e is Empty
            }),
    {
        if self.current.len() == 0 {
            return Err(RepoError::Empty);
        }
        let ghost es = self.entries();

        // The column widths, over the whole listing.
        let mut tw: usize = 0;
        let mut ew: usize = 0;
        let mut i: usize = 0;
        proof {
            assert(es.take(0) =~= Seq::<(Seq<char>, ShowView)>::empty());
        }
        while i < self.current.len()
            invariant
                i <= self.current.len(),
                es == self.entries(),
                es.len() == self.current.len(),
                tw == max_key_len(es.take(i as int)),
                ew == max_ep_len(es.take(i as int)),
            decreases self.current.len() - i,
        {
            proof {
                assert(es.take(i + 1).drop_last() =~= es.take(i as int));
                assert(es.take(i + 1).last() == es[i as int]);
            }
            let tl = self.current[i].0.as_str().unicode_len();
            assert(tl == es[i as int].0.len());
            if tl > tw {
                tw = tl;
            }
            let eps = u64_to_string(self.current[i].1.episode as u64);
            let el = eps.as_str().unicode_len();
            assert(el == dec_spec(es[i as int].1.episode as nat).len());
            if el > ew {
                ew = el;
            }
            i = i + 1;
        }
        proof {
            assert(es.take(es.len() as int) =~= es);
        }

        let mut lines: Vec<String> = Vec::new();
        let mut i: usize = 0;
        proof {
            assert(lines.deep_view() =~= list_lines_spec(
                es.take(0),
                should_links,
                tw as nat,
                ew as nat,
            ));
        }
        while i < self.current.len()
            invariant
                i <= self.current.len(),
                es == self.entries(),
                es.len() == self.current.len(),
                tw == max_key_len(es),
                ew == max_ep_len(es),
                lines.deep_view() == list_lines_spec(
                    es.take(i as int),
                    should_links,
                    tw as nat,
                    ew as nat,
                ),
            decreases self.current.len() - i,
        {
            proof {
                assert(es.take(i + 1).drop_last() =~= es.take(i as int));
                assert(es.take(i + 1).last() == es[i as int]);
                lemma_max_key_len(es, i as int);
                lemma_max_ep_len(es, i as int);
            }
            let ghost e = es[i as int];
            let title = &self.current[i].0;
            let show = &self.current[i].1;
            let eps = u64_to_string(show.episode as u64);
            let dns = u64_to_string(show.downloaded as u64);
            let ghost old_views = lines.deep_view();
            if !should_links {
                let tl = title.as_str().unicode_len();
                let el = eps.as_str().unicode_len();
                assert(tl == e.0.len());
                assert(el == dec_spec(e.1.episode as nat).len());
                assert(tl <= tw);
                assert(el <= ew);
                let mut line = title.clone();
                line.append(spaces(tw - tl).as_str());
                line.append(" — ep");
                line.append(eps.as_str());
                line.append(spaces(ew - el).as_str());
                line.append(" — dn");
                line.append(dns.as_str());
                proof {
                    assert(line@ == plain_line(e, tw as nat, ew as nat));
                }
                lines.push(line);
                proof {
                    assert(lines.deep_view() =~= old_views.push(plain_line(e, tw as nat, ew as nat)));
                }
            } else {
                let mut hline = title.clone();
                hline.append(" — ep");
                hline.append(eps.as_str());
                hline.append(" — dn");
                hline.append(dns.as_str());
                proof {
                    assert(hline@ == head_line(e));
                }
                let mut lline = String::from_str("  link: ");
                match &show.link {
                    Some(l) => lline.append(l.as_str()),
                    None => lline.append("empty"),
                }
                proof {
                    assert(lline@ == link_line(e.1.link));
                }
                let mut dline = String::from_str("  dlink: ");
                match &show.dlink {
                    Some(l) => dline.append(l.as_str()),
                    None => dline.append("empty"),
                }
                proof {
                    assert(dline@ == dlink_line(e.1.dlink));
                }
                lines.push(hline);
                lines.push(lline);
                lines.push(dline);
                proof {
                    assert(lines.deep_view() =~= old_views + seq![
                        head_line(e),
                        link_line(e.1.link),
                        dlink_line(e.1.dlink),
                    ]);
                }
            }
            i = i + 1;
        }
        proof {
            assert(es.take(es.len() as int) =~= es);
        }
        Ok(lines)
    }
}

} // verus!
