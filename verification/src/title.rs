//! Title resolution: mapping a user-typed, possibly partial or differently
//! cased pattern onto exactly one stored title, or failing with a reason that
//! names the candidates.

use crate::strkit::{is_substr, lower_of, lowercase, str_contains, str_eq};
use vstd::prelude::*;

verus! {

/// A title that resolution proved to be a literal member of the candidate set
/// it was drawn from.
#[derive(Debug)]
pub struct ValidatedTitle {
    title: String,
}

impl View for ValidatedTitle {
    type V = Seq<char>;

    closed spec fn view(&self) -> Seq<char> {
        self.title@
    }
}

/// Why resolution failed.
#[derive(Debug)]
pub enum ResolveError {
    /// No candidate contains the pattern, even ignoring case.
    NoMatch,
    /// More than one candidate remained: `insensitive` lists every candidate
    /// whose lowercased form contains the lowercased pattern, and `sensitive`
    /// those of them that also contain the pattern with its original case
    /// (empty when the tie-break eliminated everything).
    Ambiguous { insensitive: Vec<String>, sensitive: Vec<String> },
}

/// The two titles have the same lowercased form.
pub open spec fn ci_eq(t: Seq<char>, p: Seq<char>) -> bool {
    lower_of(t) == lower_of(p)
}

/// The lowercased pattern occurs inside the lowercased title.
pub open spec fn ci_sub(t: Seq<char>, p: Seq<char>) -> bool {
    is_substr(lower_of(t), lower_of(p))
}

/// The pattern occurs inside the title with its case intact.
pub open spec fn cs_sub(t: Seq<char>, p: Seq<char>) -> bool {
    is_substr(t, p)
}

pub open spec fn has_exact(ts: Seq<Seq<char>>, p: Seq<char>) -> bool {
    exists|i: int| 0 <= i < ts.len() && ts[i] == p
}

pub open spec fn has_ci_eq(ts: Seq<Seq<char>>, p: Seq<char>) -> bool {
    exists|i: int| 0 <= i < ts.len() && ci_eq(ts[i], p)
}

/// The candidates whose lowercased form contains the lowercased pattern, in
/// candidate order.
pub open spec fn filter_ci_sub(ts: Seq<Seq<char>>, p: Seq<char>) -> Seq<Seq<char>>
    decreases ts.len(),
{
    if ts.len() == 0 {
        Seq::empty()
    } else {
        let pre = filter_ci_sub(ts.drop_last(), p);
        if ci_sub(ts.last(), p) {
            pre.push(ts.last())
        } else {
            pre
        }
    }
}

/// The candidates that contain the pattern with its case intact, in candidate
/// order.
pub open spec fn filter_cs_sub(ts: Seq<Seq<char>>, p: Seq<char>) -> Seq<Seq<char>>
    decreases ts.len(),
{
    if ts.len() == 0 {
        Seq::empty()
    } else {
        let pre = filter_cs_sub(ts.drop_last(), p);
        if cs_sub(ts.last(), p) {
            pre.push(ts.last())
        } else {
            pre
        }
    }
}

/// What resolution of `p` against the ordered candidates `ts` returns: the
/// full contract of [`ValidatedTitle::from_pattern`], reused by every
/// repository that resolves patterns against its own titles.
pub open spec fn resolve_post(
    ts: Seq<Seq<char>>,
    p: Seq<char>,
    r: Result<ValidatedTitle, ResolveError>,
) -> bool {
    &&& (r matches Ok(t) ==> ts.contains(t@))
    &&& (has_exact(ts, p) ==> ({
        &&& r matches Ok(t)
        &&& t@ == p
    }))
    &&& (!has_exact(ts, p) && has_ci_eq(ts, p) ==> ({
        &&& r matches Ok(t)
        &&& exists|i: int|
            {
                &&& 0 <= i < ts.len()
                &&& t@ == ts[i]
                &&& ci_eq(ts[i], p)
                &&& forall|k: int| 0 <= k < i ==> !ci_eq(ts[k], p)
            }
    }))
    &&& (!has_exact(ts, p) && !has_ci_eq(ts, p) ==> {
        let s1 = filter_ci_sub(ts, p);
        let s2 = filter_cs_sub(s1, p);
        &&& (s1.len() == 0 ==> ({
            &&& r matches Err(e)
            &&& e is NoMatch
        }))
        &&& (s1.len() == 1 ==> ({
            &&& r matches Ok(t)
            &&& t@ == s1[0]
        }))
        &&& (s1.len() > 1 && s2.len() == 1 ==> ({
            &&& r matches Ok(t)
            &&& t@ == s2[0]
        }))
        &&& (s1.len() > 1 && s2.len() != 1 ==> ({
            &&& r matches Err(e)
            &&& e matches ResolveError::Ambiguous { insensitive, sensitive }
            &&& insensitive.deep_view() == s1
            &&& sensitive.deep_view() == s2
        }))
    })
}

/// Resolution has at most one success path: whenever the pattern equals a
/// stored candidate byte-for-byte, resolution succeeds with exactly that
/// candidate, no matter how closely the other candidates match it.
pub proof fn lemma_exact_match_always_wins(
    ts: Seq<Seq<char>>,
    p: Seq<char>,
    r: Result<ValidatedTitle, ResolveError>,
)
    requires
        resolve_post(ts, p, r),
        has_exact(ts, p),
    ensures
        r matches Ok(t) && t@ == p,
{
}

impl ValidatedTitle {
    /// The wrapped title.
    pub fn as_str(&self) -> (r: &str)
        ensures
            r@ == self@,
    {
        self.title.as_str()
    }

    /// Consumes the proof object and hands the bare title back.
    pub fn into_string(self) -> (r: String)
        ensures
            r@ == self@,
    {
        self.title
    }

    /// Resolves `pattern` against `titles`, trying in strict order: exact
    /// case-sensitive match, exact case-insensitive match, then
    /// case-insensitive substring match with a case-sensitive tie-break.
    /// An exact case-sensitive match, when present, always wins.
    pub fn from_pattern(titles: &Vec<String>, pattern: &str) -> (r: Result<
        ValidatedTitle,
        ResolveError,
    >)
        ensures
            resolve_post(titles.deep_view(), pattern@, r),
    {
        let ghost ts = titles.deep_view();
        let ghost p = pattern@;

        // Stage 1: exact case-sensitive match.
        let mut i: usize = 0;
        while i < titles.len()
            invariant
                i <= titles.len(),
                ts == titles.deep_view(),
                p == pattern@,
                ts.len() == titles.len(),
                forall|k: int| 0 <= k < i ==> ts[k] != p,
            decreases titles.len() - i,
        {
            if str_eq(titles[i].as_str(), pattern) {
                let t = ValidatedTitle { title: titles[i].clone() };
                proof {
                    assert(ts[i as int] == t@);
                    assert(ts.contains(t@));
                    assert(has_exact(ts, p));
                }
                return Ok(t);
            }
            i = i + 1;
        }
        assert(!has_exact(ts, p));

        // Stage 2: exact case-insensitive match.
        let low_p = lowercase(pattern);
        let mut i: usize = 0;
        while i < titles.len()
            invariant
                i <= titles.len(),
                ts == titles.deep_view(),
                p == pattern@,
                ts.len() == titles.len(),
                low_p@ == lower_of(p),
                !has_exact(ts, p),
                forall|k: int| 0 <= k < i ==> !ci_eq(ts[k], p),
            decreases titles.len() - i,
        {
            let low_t = lowercase(titles[i].as_str());
            if str_eq(low_t.as_str(), low_p.as_str()) {
                let t = ValidatedTitle { title: titles[i].clone() };
                proof {
                    assert(ci_eq(ts[i as int], p));
                    assert(has_ci_eq(ts, p));
                    assert(ts[i as int] == t@);
                    assert(ts.contains(t@));
                    assert(exists|j: int|
                        {
                            &&& 0 <= j < ts.len()
                            &&& t@ == ts[j]
                            &&& ci_eq(ts[j], p)
                            &&& forall|k: int| 0 <= k < j ==> !ci_eq(ts[k], p)
                        }) by {
                        let j: int = i as int;
                        assert({
                            &&& 0 <= j < ts.len()
                            &&& t@ == ts[j]
                            &&& ci_eq(ts[j], p)
                            &&& forall|k: int| 0 <= k < j ==> !ci_eq(ts[k], p)
                        });
                    }
                }
                return Ok(t);
            }
            i = i + 1;
        }
        assert(!has_ci_eq(ts, p));

        // Stage 3: case-insensitive substring match.
        let mut insens: Vec<String> = Vec::new();
        let mut i: usize = 0;
        proof {
            assert(insens.deep_view() =~= filter_ci_sub(ts.take(0), p));
        }
        while i < titles.len()
            invariant
                i <= titles.len(),
                ts == titles.deep_view(),
                p == pattern@,
                ts.len() == titles.len(),
                low_p@ == lower_of(p),
                insens.deep_view() == filter_ci_sub(ts.take(i as int), p),
                forall|j: int|
                    0 <= j < insens.deep_view().len() ==> ts.contains(
                        #[trigger] insens.deep_view()[j],
                    ),
            decreases titles.len() - i,
        {
            proof {
                assert(ts.take(i + 1).drop_last() =~= ts.take(i as int));
                assert(ts.take(i + 1).last() == ts[i as int]);
            }
            let low_t = lowercase(titles[i].as_str());
            let ghost old_views = insens.deep_view();
            if str_contains(low_t.as_str(), low_p.as_str()) {
                insens.push(titles[i].clone());
                proof {
                    assert(insens.deep_view() =~= old_views.push(ts[i as int]));
                }
            }
            i = i + 1;
        }
        proof {
            assert(ts.take(ts.len() as int) =~= ts);
        }
        let ghost s1 = filter_ci_sub(ts, p);

        if insens.len() == 0 {
            return Err(ResolveError::NoMatch);
        }
        if insens.len() == 1 {
            let t = ValidatedTitle { title: insens[0].clone() };
            proof {
                assert(insens.deep_view()[0] == t@);
                assert(ts.contains(t@));
            }
            return Ok(t);
        }

        // Tie-break: keep the candidates that contain the pattern with case.
        let mut sens: Vec<String> = Vec::new();
        let mut i: usize = 0;
        proof {
            assert(sens.deep_view() =~= filter_cs_sub(s1.take(0), p));
        }
        while i < insens.len()
            invariant
                i <= insens.len(),
                ts == titles.deep_view(),
                p == pattern@,
                s1 == filter_ci_sub(ts, p),
                s1 == insens.deep_view(),
                s1.len() == insens.len(),
                sens.deep_view() == filter_cs_sub(s1.take(i as int), p),
                forall|j: int|
                    0 <= j < insens.deep_view().len() ==> ts.contains(
                        #[trigger] insens.deep_view()[j],
                    ),
                forall|j: int|
                    0 <= j < sens.deep_view().len() ==> ts.contains(#[trigger] sens.deep_view()[j]),
            decreases insens.len() - i,
        {
            proof {
                assert(s1.take(i + 1).drop_last() =~= s1.take(i as int));
                assert(s1.take(i + 1).last() == s1[i as int]);
            }
            let ghost old_views = sens.deep_view();
            if str_contains(insens[i].as_str(), pattern) {
                sens.push(insens[i].clone());
                proof {
                    assert(sens.deep_view() =~= old_views.push(s1[i as int]));
                }
            }
            i = i + 1;
        }
        proof {
            assert(s1.take(s1.len() as int) =~= s1);
        }

        if sens.len() == 1 {
            let t = ValidatedTitle { title: sens[0].clone() };
            proof {
                assert(sens.deep_view()[0] == t@);
                assert(ts.contains(t@));
            }
            return Ok(t);
        }
        Err(ResolveError::Ambiguous { insensitive: insens, sensitive: sens })
    }
}

} // verus!
