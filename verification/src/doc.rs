//! The persisted current-shows document: a YAML-shaped text with one block of
//! five lines per show, sorted by title, together with its parser and the
//! proof that parsing inverts rendering.

use crate::show_repo::{link_ok, storable, CurrentRepo, Show, ShowView};
use crate::strkit::{
    dec_spec, dec_value, is_canonical_dec, join_term, lemma_adjacent_sorted,
    lemma_dec_spec_canonical, lemma_split_join, lemma_split_term_no_nl, lex_lt, no_nl, parse_u32,
    split_lines, split_term, str_eq, str_lt, strip_prefix, strip_prefix_spec, u64_to_string,
};
use vstd::prelude::*;

verus! {

/// The text a link field is stored as: the link itself, or `null` when unset.
pub open spec fn opt_link_val(l: Option<Seq<char>>) -> Seq<char> {
    match l {
        Some(x) => x,
        None => "null"@,
    }
}

/// The five lines of one show's block: the title, then its four fields,
/// indented.
pub open spec fn entry_lines(e: (Seq<char>, ShowView)) -> Seq<Seq<char>> {
    seq![
        e.0 + ":"@,
        "  episode: "@ + dec_spec(e.1.episode as nat),
        "  downloaded: "@ + dec_spec(e.1.downloaded as nat),
        "  link: "@ + opt_link_val(e.1.link),
        "  dlink: "@ + opt_link_val(e.1.dlink),
    ]
}

/// All lines of the document, in entry order.
pub open spec fn doc_lines(es: Seq<(Seq<char>, ShowView)>) -> Seq<Seq<char>>
    decreases es.len(),
{
    if es.len() == 0 {
        Seq::empty()
    } else {
        entry_lines(es[0]) + doc_lines(es.skip(1))
    }
}

/// The rendered document: every line newline-terminated.
pub open spec fn emit_spec(es: Seq<(Seq<char>, ShowView)>) -> Seq<char> {
    join_term(doc_lines(es))
}

/// What one parsed block means, if the five lines are well-formed.
pub open spec fn parse_entry_spec(
    l0: Seq<char>,
    l1: Seq<char>,
    l2: Seq<char>,
    l3: Seq<char>,
    l4: Seq<char>,
) -> Option<(Seq<char>, ShowView)> {
    if l0.len() >= 1 && l0.last() == ':' {
        match strip_prefix_spec(l1, "  episode: "@) {
            Some(ev) => if is_canonical_dec(ev) && dec_value(ev) <= u32::MAX {
                match strip_prefix_spec(l2, "  downloaded: "@) {
                    Some(dv) => if is_canonical_dec(dv) && dec_value(dv) <= u32::MAX {
                        match strip_prefix_spec(l3, "  link: "@) {
                            Some(lv) => match strip_prefix_spec(l4, "  dlink: "@) {
                                Some(dlv) => Some(
                                    (
                                        l0.drop_last(),
                                        ShowView {
                                            episode: dec_value(ev) as u32,
                                            downloaded: dec_value(dv) as u32,
                                            link: if lv == "null"@ {
                                                None
                                            } else {
                                                Some(lv)
                                            },
                                            dlink: if dlv == "null"@ {
                                                None
                                            } else {
                                                Some(dlv)
                                            },
                                        },
                                    ),
                                ),
                                None => None,
                            },
                            None => None,
                        }
                    } else {
                        None
                    },
                    None => None,
                }
            } else {
                None
            },
            None => None,
        }
    } else {
        None
    }
}

/// Parses the lines as consecutive five-line blocks.
pub open spec fn parse_lines_spec(lines: Seq<Seq<char>>) -> Option<Seq<(Seq<char>, ShowView)>>
    decreases lines.len(),
{
    if lines.len() == 0 {
        Some(Seq::empty())
    } else if lines.len() < 5 {
        None
    } else {
        match parse_entry_spec(lines[0], lines[1], lines[2], lines[3], lines[4]) {
            Some(e) => match parse_lines_spec(lines.skip(5)) {
                Some(rest) => Some(seq![e] + rest),
                None => None,
            },
            None => None,
        }
    }
}

/// Entries in strictly increasing title order.
pub open spec fn sorted_strict(es: Seq<(Seq<char>, ShowView)>) -> bool {
    forall|i: int, j: int| 0 <= i < j < es.len() ==> lex_lt(#[trigger] es[i].0, #[trigger] es[j].0)
}

/// What a document means: its entries, provided every line parses and the
/// titles come sorted; anything else is rejected.
pub open spec fn parse_spec(doc: Seq<char>) -> Option<Seq<(Seq<char>, ShowView)>> {
    match split_term(doc) {
        None => None,
        Some(lines) => match parse_lines_spec(lines) {
            None => None,
            Some(es) => if sorted_strict(es) {
                Some(es)
            } else {
                None
            },
        },
    }
}

/// Every entry can be carried by the document text: single-line titles and
/// representable links.
pub open spec fn doc_safe(es: Seq<(Seq<char>, ShowView)>) -> bool {
    forall|i: int| 0 <= i < es.len() ==> storable(#[trigger] es[i])
}

/// The current-shows document could not be read back as a repository.
#[derive(Debug)]
pub enum DocError {
    /// The text is not a well-formed, title-sorted current-shows document.
    Malformed,
}

proof fn lemma_doc_lines_push(es: Seq<(Seq<char>, ShowView)>, e: (Seq<char>, ShowView))
    ensures
        doc_lines(es.push(e)) == doc_lines(es) + entry_lines(e),
    decreases es.len(),
{
    let p = es.push(e);
    if es.len() == 0 {
        assert(p[0] == e);
        assert(p.skip(1) =~= Seq::<(Seq<char>, ShowView)>::empty());
        assert(doc_lines(p.skip(1)) == Seq::<Seq<char>>::empty());
        assert(doc_lines(p) =~= entry_lines(e));
        assert(doc_lines(es) + entry_lines(e) =~= entry_lines(e));
    } else {
        assert(p[0] == es[0]);
        assert(p.skip(1) =~= es.skip(1).push(e));
        lemma_doc_lines_push(es.skip(1), e);
        assert((entry_lines(es[0]) + (doc_lines(es.skip(1)) + entry_lines(e))) =~= (entry_lines(
            es[0],
        ) + doc_lines(es.skip(1))) + entry_lines(e));
    }
}

proof fn lemma_join_term_concat(a: Seq<Seq<char>>, b: Seq<Seq<char>>)
    ensures
        join_term(a + b) == join_term(a) + join_term(b),
    decreases a.len(),
{
    if a.len() == 0 {
        assert(a + b =~= b);
        assert(join_term(a) =~= Seq::<char>::empty());
        assert(join_term(a) + join_term(b) =~= join_term(b));
    } else {
        assert((a + b)[0] == a[0]);
        assert((a + b).skip(1) =~= a.skip(1) + b);
        lemma_join_term_concat(a.skip(1), b);
        assert((a[0] + seq!['\n'] + (join_term(a.skip(1)) + join_term(b))) =~= (a[0] + seq!['\n']
            + join_term(a.skip(1))) + join_term(b));
    }
}

/// The rendering of one block: its five lines, each newline-terminated.
proof fn lemma_join_entry(e: (Seq<char>, ShowView))
    ensures
        join_term(entry_lines(e)) == e.0 + ":"@ + seq!['\n'] + ("  episode: "@ + dec_spec(
            e.1.episode as nat,
        )) + seq!['\n'] + ("  downloaded: "@ + dec_spec(e.1.downloaded as nat)) + seq!['\n'] + (
        "  link: "@ + opt_link_val(e.1.link)) + seq!['\n'] + ("  dlink: "@ + opt_link_val(
            e.1.dlink,
        )) + seq!['\n'],
{
    let ls = entry_lines(e);
    assert(seq![ls[4]].skip(1) =~= Seq::<Seq<char>>::empty());
    assert(join_term(Seq::<Seq<char>>::empty()) == Seq::<char>::empty());
    assert(join_term(seq![ls[4]]) =~= ls[4] + seq!['\n']);
    assert(seq![ls[3], ls[4]].skip(1) =~= seq![ls[4]]);
    assert(join_term(seq![ls[3], ls[4]]) =~= ls[3] + seq!['\n'] + (ls[4] + seq!['\n']));
    assert(seq![ls[2], ls[3], ls[4]].skip(1) =~= seq![ls[3], ls[4]]);
    assert(join_term(seq![ls[2], ls[3], ls[4]]) =~= ls[2] + seq!['\n'] + (ls[3] + seq!['\n'] + (
    ls[4] + seq!['\n'])));
    assert(seq![ls[1], ls[2], ls[3], ls[4]].skip(1) =~= seq![ls[2], ls[3], ls[4]]);
    assert(join_term(seq![ls[1], ls[2], ls[3], ls[4]]) =~= ls[1] + seq!['\n'] + (ls[2]
        + seq!['\n'] + (ls[3] + seq!['\n'] + (ls[4] + seq!['\n']))));
    assert(ls.skip(1) =~= seq![ls[1], ls[2], ls[3], ls[4]]);
    assert(join_term(ls) =~= (e.0 + ":"@) + seq!['\n'] + ("  episode: "@ + dec_spec(
        e.1.episode as nat,
    )) + seq!['\n'] + ("  downloaded: "@ + dec_spec(e.1.downloaded as nat)) + seq!['\n'] + (
    "  link: "@ + opt_link_val(e.1.link)) + seq!['\n'] + ("  dlink: "@ + opt_link_val(e.1.dlink))
        + seq!['\n']);
}

/// Renders one show's five-line block.
fn render_entry(title: &String, show: &Show) -> (r: String)
    ensures
        r@ == join_term(entry_lines((title@, show@))),
{
    let mut r = title.clone();
    r.append(":\n  episode: ");
    r.append(u64_to_string(show.episode as u64).as_str());
    r.append("\n  downloaded: ");
    r.append(u64_to_string(show.downloaded as u64).as_str());
    r.append("\n  link: ");
    match &show.link {
        Some(l) => r.append(l.as_str()),
        None => r.append("null"),
    }
    r.append("\n  dlink: ");
    match &show.dlink {
        Some(l) => r.append(l.as_str()),
        None => r.append("null"),
    }
    r.append("\n");
    proof {
        reveal_strlit(":\n  episode: ");
        reveal_strlit("\n  downloaded: ");
        reveal_strlit("\n  link: ");
        reveal_strlit("\n  dlink: ");
        reveal_strlit("\n");
        reveal_strlit(":");
        reveal_strlit("  episode: ");
        reveal_strlit("  downloaded: ");
        reveal_strlit("  link: ");
        reveal_strlit("  dlink: ");
        reveal_strlit("null");
        lemma_join_entry((title@, show@));
        assert(r@ =~= join_term(entry_lines((title@, show@))));
    }
    r
}

impl CurrentRepo {
    /// Renders the repository as its persisted document.
    pub fn to_document(&self) -> (r: String)
        ensures
            r@ == emit_spec(self.entries()),
    {
        let ghost es = self.entries();
        let mut r = String::new();
        let mut i: usize = 0;
        proof {
            assert(es.take(0) =~= Seq::<(Seq<char>, ShowView)>::empty());
            assert(r@ =~= emit_spec(es.take(0)));
        }
        while i < self.len()
            invariant
                i <= self.entries().len(),
                es == self.entries(),
                r@ == emit_spec(es.take(i as int)),
            decreases self.entries().len() - i,
        {
            let (title, show) = self.entry_at(i);
            let ghost e = es[i as int];
            let block = render_entry(title, show);
            r.append(block.as_str());
            proof {
                assert(es.take(i + 1) =~= es.take(i as int).push(e));
                lemma_doc_lines_push(es.take(i as int), e);
                lemma_join_term_concat(doc_lines(es.take(i as int)), entry_lines(e));
                assert(r@ =~= emit_spec(es.take(i + 1)));
            }
            i = i + 1;
        }
        proof {
            assert(es.take(es.len() as int) =~= es);
        }
        r
    }
}

/// The (title, show) views of a sequence of concrete entries.
pub open spec fn pairs_view(s: Seq<(String, Show)>) -> Seq<(Seq<char>, ShowView)> {
    Seq::new(s.len(), |i: int| (s[i].0@, s[i].1@))
}

impl CurrentRepo {
    /// Parses a persisted current-shows document; fails on any text that is
    /// not a well-formed, title-sorted document.
    pub fn new(doc: &str) -> (r: Result<CurrentRepo, DocError>)
        ensures
            match r {
                Ok(repo) => ({
                    &&& parse_spec(doc@) == Some(repo.entries())
                    &&& repo.wf()
                }),
                Err(_) => parse_spec(doc@) is None,
            },
    {
        let lines = match split_lines(doc) {
            Some(v) => v,
            None => {
                return Err(DocError::Malformed);
            },
        };
        let ghost lv = lines.deep_view();
        let mut out: Vec<(String, Show)> = Vec::new();
        let mut i: usize = 0;
        proof {
            assert(lv.skip(0) =~= lv);
            if parse_lines_spec(lv) is Some {
                assert(pairs_view(out@) + parse_lines_spec(lv)->Some_0 =~= parse_lines_spec(
                    lv,
                )->Some_0);
            }
            lemma_split_term_no_nl(doc@, Seq::empty());
        }
        while i < lines.len() && lines.len() - i >= 5
            invariant
                i <= lines.len(),
                lv == lines.deep_view(),
                lv.len() == lines.len(),
                split_term(doc@) == Some(lv),
                forall|k: int| 0 <= k < lv.len() ==> no_nl(#[trigger] lv[k]),
                forall|k: int| 0 <= k < out@.len() ==> storable(#[trigger] pairs_view(out@)[k]),
                match parse_lines_spec(lv.skip(i as int)) {
                    Some(rest) => parse_lines_spec(lv) == Some(pairs_view(out@) + rest),
                    None => parse_lines_spec(lv) is None,
                },
            decreases lines.len() - i,
        {
            let ghost remaining = lv.skip(i as int);
            proof {
                assert(remaining.len() >= 5);
                assert(remaining[0] == lv[i as int]);
                assert(remaining[1] == lv[i + 1]);
                assert(remaining[2] == lv[i + 2]);
                assert(remaining[3] == lv[i + 3]);
                assert(remaining[4] == lv[i + 4]);
            }
            let l0 = lines[i].as_str();
            assert(l0@ == remaining[0]);
            let tl = l0.unicode_len();
            if tl == 0 {
                proof {
                    assert(parse_lines_spec(lv.skip(i as int)) is None);
                }
                return Err(DocError::Malformed);
            }
            if l0.get_char(tl - 1) != ':' {
                proof {
                    assert(remaining[0].last() != ':');
                    assert(parse_lines_spec(lv.skip(i as int)) is None);
                }
                return Err(DocError::Malformed);
            }
            let title = String::from_str(l0.substring_char(0, tl - 1));
            proof {
                assert(title@ =~= lv[i as int].drop_last());
            }
            assert(lines[i + 1]@ == remaining[1]);
            assert(lines[i + 2]@ == remaining[2]);
            assert(lines[i + 3]@ == remaining[3]);
            assert(lines[i + 4]@ == remaining[4]);
            let ev = match strip_prefix(lines[i + 1].as_str(), "  episode: ") {
                Some(v) => v,
                None => {
                    return Err(DocError::Malformed);
                },
            };
            let ep = match parse_u32(ev) {
                Some(n) => n,
                None => {
                    return Err(DocError::Malformed);
                },
            };
            let dv = match strip_prefix(lines[i + 2].as_str(), "  downloaded: ") {
                Some(v) => v,
                None => {
                    return Err(DocError::Malformed);
                },
            };
            let dn = match parse_u32(dv) {
                Some(n) => n,
                None => {
                    return Err(DocError::Malformed);
                },
            };
            let lval = match strip_prefix(lines[i + 3].as_str(), "  link: ") {
                Some(v) => v,
                None => {
                    return Err(DocError::Malformed);
                },
            };
            let link: Option<String> = if str_eq(lval, "null") {
                None
            } else {
                Some(String::from_str(lval))
            };
            let dlval = match strip_prefix(lines[i + 4].as_str(), "  dlink: ") {
                Some(v) => v,
                None => {
                    return Err(DocError::Malformed);
                },
            };
            let dlink: Option<String> = if str_eq(dlval, "null") {
                None
            } else {
                Some(String::from_str(dlval))
            };
            let show = Show { episode: ep, downloaded: dn, link, dlink };
            let ghost e = (title@, show@);
            proof {
                assert(parse_entry_spec(
                    remaining[0],
                    remaining[1],
                    remaining[2],
                    remaining[3],
                    remaining[4],
                ) == Some(e));
                assert(remaining.skip(5) =~= lv.skip(i + 5));
                assert(no_nl(title@)) by {
                    assert(forall|k: int|
                        0 <= k < title@.len() ==> #[trigger] title@[k] == lv[i as int][k]);
                }
                assert(no_nl(lval@)) by {
                    assert(lval@ == lv[i + 3].skip("  link: "@.len() as int));
                    assert(forall|k: int|
                        0 <= k < lval@.len() ==> #[trigger] lval@[k] == lv[i + 3][k
                            + "  link: "@.len()]);
                }
                assert(no_nl(dlval@)) by {
                    assert(dlval@ == lv[i + 4].skip("  dlink: "@.len() as int));
                    assert(forall|k: int|
                        0 <= k < dlval@.len() ==> #[trigger] dlval@[k] == lv[i + 4][k
                            + "  dlink: "@.len()]);
                }
                assert(storable(e));
            }
            let ghost old_pairs = pairs_view(out@);
            out.push((title, show));
            proof {
                assert(pairs_view(out@) =~= old_pairs.push(e));
                if parse_lines_spec(lv.skip(i + 5)) is Some {
                    let rest = parse_lines_spec(lv.skip(i + 5))->Some_0;
                    assert(parse_lines_spec(remaining) == Some(seq![e] + rest));
                    assert(old_pairs + (seq![e] + rest) =~= old_pairs.push(e) + rest);
                }
            }
            i = i + 5;
        }
        if i < lines.len() {
            proof {
                assert(lv.skip(i as int).len() > 0);
                assert(lv.skip(i as int).len() < 5);
            }
            return Err(DocError::Malformed);
        }
        proof {
            assert(lv.skip(i as int).len() == 0);
            assert(parse_lines_spec(lv.skip(i as int)) == Some(Seq::<(Seq<char>, ShowView)>::empty()));
            assert(pairs_view(out@) + Seq::<(Seq<char>, ShowView)>::empty() =~= pairs_view(out@));
        }

        // The titles must come strictly sorted.
        let mut j: usize = 1;
        while j < out.len()
            invariant
                1 <= j || out.len() == 0,
                j <= out.len() || out.len() == 0,
                split_term(doc@) == Some(lv),
                parse_lines_spec(lv) == Some(pairs_view(out@)),
                forall|k: int| 0 <= k < out@.len() ==> storable(#[trigger] pairs_view(out@)[k]),
                forall|k: int|
                    0 <= k < j - 1 && k + 1 < out@.len() ==> lex_lt(
                        #[trigger] pairs_view(out@)[k].0,
                        pairs_view(out@)[k + 1].0,
                    ),
            decreases out.len() - j,
        {
            if !str_lt(out[j - 1].0.as_str(), out[j].0.as_str()) {
                proof {
                    assert(pairs_view(out@)[j - 1].0 == out@[j - 1].0@);
                    assert(pairs_view(out@)[j as int].0 == out@[j as int].0@);
                    assert(!sorted_strict(pairs_view(out@)));
                }
                return Err(DocError::Malformed);
            }
            proof {
                assert(pairs_view(out@)[j - 1].0 == out@[j - 1].0@);
                assert(pairs_view(out@)[j as int].0 == out@[j as int].0@);
            }
            j = j + 1;
        }
        proof {
            let pv = pairs_view(out@);
            let ks = Seq::new(pv.len(), |k: int| pv[k].0);
            assert(forall|k: int| 0 <= k < ks.len() - 1 ==> lex_lt(#[trigger] ks[k], ks[k + 1]));
            lemma_adjacent_sorted(ks);
            assert forall|x: int, y: int| 0 <= x < y < pv.len() implies lex_lt(
                #[trigger] pv[x].0,
                #[trigger] pv[y].0,
            ) by {
                assert(ks[x] == pv[x].0);
                assert(ks[y] == pv[y].0);
                assert(lex_lt(ks[x], ks[y]));
            }
            assert(sorted_strict(pv));
            assert(forall|x: int| 0 <= x < out@.len() ==> #[trigger] out@[x].0@ == pv[x].0);
            assert(forall|x: int|
                0 <= x < out@.len() ==> storable((#[trigger] out@[x].0@, out@[x].1@)));
        }
        let repo = CurrentRepo::from_sorted_entries(out);
        proof {
            assert(repo.entries() =~= pairs_view(out@));
        }
        Ok(repo)
    }
}

/// Parsing one rendered block yields the entry back.
proof fn lemma_parse_entry_inverse(e: (Seq<char>, ShowView))
    requires
        link_ok(e.1.link),
        link_ok(e.1.dlink),
    ensures
        ({
            let ls = entry_lines(e);
            parse_entry_spec(ls[0], ls[1], ls[2], ls[3], ls[4]) == Some(e)
        }),
{
    let ls = entry_lines(e);
    reveal_strlit(":");
    let l0 = ls[0];
    assert(l0.len() == e.0.len() + 1);
    assert(l0.last() == ':');
    assert(l0.drop_last() =~= e.0);
    let pre1 = "  episode: "@;
    let l1 = ls[1];
    assert(l1.subrange(0, pre1.len() as int) =~= pre1);
    assert(strip_prefix_spec(l1, pre1) == Some(l1.skip(pre1.len() as int)));
    assert(l1.skip(pre1.len() as int) =~= dec_spec(e.1.episode as nat));
    lemma_dec_spec_canonical(e.1.episode as nat);
    let pre2 = "  downloaded: "@;
    let l2 = ls[2];
    assert(l2.subrange(0, pre2.len() as int) =~= pre2);
    assert(strip_prefix_spec(l2, pre2) == Some(l2.skip(pre2.len() as int)));
    assert(l2.skip(pre2.len() as int) =~= dec_spec(e.1.downloaded as nat));
    lemma_dec_spec_canonical(e.1.downloaded as nat);
    let pre3 = "  link: "@;
    let l3 = ls[3];
    assert(l3.subrange(0, pre3.len() as int) =~= pre3);
    assert(strip_prefix_spec(l3, pre3) == Some(l3.skip(pre3.len() as int)));
    assert(l3.skip(pre3.len() as int) =~= opt_link_val(e.1.link));
    let pre4 = "  dlink: "@;
    let l4 = ls[4];
    assert(l4.subrange(0, pre4.len() as int) =~= pre4);
    assert(strip_prefix_spec(l4, pre4) == Some(l4.skip(pre4.len() as int)));
    assert(l4.skip(pre4.len() as int) =~= opt_link_val(e.1.dlink));
    let parsed = parse_entry_spec(ls[0], ls[1], ls[2], ls[3], ls[4]);
    assert(parsed is Some);
    let pe = parsed->Some_0;
    assert(pe.0 == e.0);
    assert(pe.1.episode == e.1.episode);
    assert(pe.1.downloaded == e.1.downloaded);
    assert(pe.1.link == e.1.link) by {
        match e.1.link {
            Some(x) => {
                assert(opt_link_val(e.1.link) == x);
                assert(x != "null"@);
            },
            None => {
                assert(opt_link_val(e.1.link) == "null"@);
            },
        }
    }
    assert(pe.1.dlink == e.1.dlink) by {
        match e.1.dlink {
            Some(x) => {
                assert(opt_link_val(e.1.dlink) == x);
                assert(x != "null"@);
            },
            None => {
                assert(opt_link_val(e.1.dlink) == "null"@);
            },
        }
    }
}

/// Parsing the rendered lines of a representable entry list yields it back.
proof fn lemma_parse_doc_lines(es: Seq<(Seq<char>, ShowView)>)
    requires
        doc_safe(es),
    ensures
        parse_lines_spec(doc_lines(es)) == Some(es),
    decreases es.len(),
{
    if es.len() == 0 {
        assert(doc_lines(es).len() == 0);
        assert(parse_lines_spec(doc_lines(es)) == Some(Seq::<(Seq<char>, ShowView)>::empty()));
        assert(es =~= Seq::<(Seq<char>, ShowView)>::empty());
    } else {
        let e = es[0];
        let ls = entry_lines(e);
        let dl = doc_lines(es);
        assert(dl == ls + doc_lines(es.skip(1)));
        assert(dl.len() >= 5);
        assert(dl[0] == ls[0]);
        assert(dl[1] == ls[1]);
        assert(dl[2] == ls[2]);
        assert(dl[3] == ls[3]);
        assert(dl[4] == ls[4]);
        lemma_parse_entry_inverse(e);
        assert(dl.skip(5) =~= doc_lines(es.skip(1)));
        assert(forall|i: int| 0 <= i < es.skip(1).len() ==> es.skip(1)[i] == es[i + 1]);
        lemma_parse_doc_lines(es.skip(1));
        assert(parse_lines_spec(dl) == Some(seq![e] + es.skip(1)));
        assert(seq![e] + es.skip(1) =~= es);
    }
}

/// No rendered line holds a newline of its own.
proof fn lemma_doc_lines_no_nl(es: Seq<(Seq<char>, ShowView)>)
    requires
        doc_safe(es),
    ensures
        forall|i: int| 0 <= i < doc_lines(es).len() ==> no_nl(#[trigger] doc_lines(es)[i]),
    decreases es.len(),
{
    reveal_strlit(":");
    reveal_strlit("  episode: ");
    reveal_strlit("  downloaded: ");
    reveal_strlit("  link: ");
    reveal_strlit("  dlink: ");
    reveal_strlit("null");
    if es.len() > 0 {
        let e = es[0];
        let ls = entry_lines(e);
        assert(no_nl(ls[0])) by {
            assert(no_nl(":"@));
        }
        assert(no_nl(dec_spec(e.1.episode as nat))) by {
            lemma_dec_spec_canonical(e.1.episode as nat);
        }
        assert(no_nl(dec_spec(e.1.downloaded as nat))) by {
            lemma_dec_spec_canonical(e.1.downloaded as nat);
        }
        assert(no_nl(ls[1]));
        assert(no_nl(ls[2]));
        assert(no_nl(opt_link_val(e.1.link))) by {
            if e.1.link is None {
                assert(no_nl("null"@));
            }
        }
        assert(no_nl(opt_link_val(e.1.dlink))) by {
            if e.1.dlink is None {
                assert(no_nl("null"@));
            }
        }
        assert(no_nl(ls[3]));
        assert(no_nl(ls[4]));
        assert(forall|i: int| 0 <= i < es.skip(1).len() ==> es.skip(1)[i] == es[i + 1]);
        lemma_doc_lines_no_nl(es.skip(1));
        assert(doc_lines(es) == ls + doc_lines(es.skip(1)));
        assert(forall|i: int|
            0 <= i < doc_lines(es).len() ==> no_nl(#[trigger] doc_lines(es)[i])) by {
            assert(forall|i: int| 0 <= i < 5 ==> no_nl(#[trigger] ls[i]));
            assert(forall|i: int|
                5 <= i < doc_lines(es).len() ==> doc_lines(es)[i] == doc_lines(es.skip(1))[i - 5]);
        }
    }
}

/// Rendering a title-sorted, representable entry list and parsing the text
/// back yields exactly the same entries.
pub proof fn lemma_doc_round_trip(es: Seq<(Seq<char>, ShowView)>)
    requires
        sorted_strict(es),
        doc_safe(es),
    ensures
        parse_spec(emit_spec(es)) == Some(es),
{
    lemma_doc_lines_no_nl(es);
    lemma_split_join(doc_lines(es));
    lemma_parse_doc_lines(es);
}

/// Persisting then reloading reproduces an identical map, for every
/// well-formed repository: rendering any state the repository API admits and
/// parsing the text back yields exactly the entries that were rendered.
pub proof fn lemma_save_load_round_trip(repo: CurrentRepo)
    requires
        repo.wf(),
    ensures
        parse_spec(emit_spec(repo.entries())) == Some(repo.entries()),
{
    let es = repo.entries();
    assert forall|i: int, j: int| 0 <= i < j < es.len() implies lex_lt(
        #[trigger] es[i].0,
        #[trigger] es[j].0,
    ) by {
        assert(repo.keys()[i] == es[i].0);
        assert(repo.keys()[j] == es[j].0);
        assert(lex_lt(repo.keys()[i], repo.keys()[j]));
    }
    assert(sorted_strict(es));
    assert(doc_safe(es));
    lemma_doc_round_trip(es);
}

} // verus!
