//! Character-level string utilities: lexicographic order, substring search,
//! decimal rendering and parsing, line splitting and joining, and trailing
//! whitespace trimming, together with the two trusted calls into outside
//! crates (Unicode lowercasing and the date stamp).

use vstd::prelude::*;

verus! {

// ---------------------------------------------------------------------------
// Lexicographic order on character sequences
// ---------------------------------------------------------------------------

/// `a` comes strictly before `b` in lexicographic order (by Unicode scalar value).
pub open spec fn lex_lt(a: Seq<char>, b: Seq<char>) -> bool
    decreases a.len(),
{
    if b.len() == 0 {
        false
    } else if a.len() == 0 {
        true
    } else if a[0] != b[0] {
        a[0] < b[0]
    } else {
        lex_lt(a.skip(1), b.skip(1))
    }
}

/// Exactly one of `lex_lt(a, b)`, `lex_lt(b, a)`, `a == b` holds.
pub proof fn lemma_lex_connected(a: Seq<char>, b: Seq<char>)
    ensures
        !lex_lt(a, b) && !lex_lt(b, a) ==> a == b,
        lex_lt(a, b) ==> !lex_lt(b, a),
        lex_lt(a, b) ==> a != b,
    decreases a.len(),
{
    if a.len() == 0 || b.len() == 0 {
    } else if a[0] == b[0] {
        lemma_lex_connected(a.skip(1), b.skip(1));
        if !lex_lt(a, b) && !lex_lt(b, a) {
            assert(a =~= seq![a[0]] + a.skip(1));
            assert(b =~= seq![b[0]] + b.skip(1));
        }
        if lex_lt(a, b) && a == b {
            assert(a.skip(1) == b.skip(1));
        }
    } else {
        if lex_lt(a, b) && a == b {
            assert(a[0] == b[0]);
        }
    }
}

pub proof fn lemma_lex_trans(a: Seq<char>, b: Seq<char>, c: Seq<char>)
    requires
        lex_lt(a, b),
        lex_lt(b, c),
    ensures
        lex_lt(a, c),
    decreases a.len(),
{
    if a.len() == 0 {
        assert(b.len() > 0);
        assert(c.len() > 0);
    } else {
        assert(b.len() > 0);
        assert(c.len() > 0);
        if a[0] == b[0] && b[0] == c[0] {
            lemma_lex_trans(a.skip(1), b.skip(1), c.skip(1));
        }
    }
}

/// Compares two strings lexicographically by Unicode scalar value.
pub fn str_lt(a: &str, b: &str) -> (r: bool)
    ensures
        r == lex_lt(a@, b@),
{
    let alen: usize = a.unicode_len();
    let blen: usize = b.unicode_len();
    let mut i: usize = 0;
    assert(a@.skip(0) =~= a@);
    assert(b@.skip(0) =~= b@);
    loop
        invariant
            i <= alen,
            i <= blen,
            alen == a@.len(),
            blen == b@.len(),
            lex_lt(a@, b@) == lex_lt(a@.skip(i as int), b@.skip(i as int)),
        decreases alen - i,
    {
        if i >= blen {
            assert(b@.skip(i as int).len() == 0);
            return false;
        }
        if i >= alen {
            assert(a@.skip(i as int).len() == 0);
            return true;
        }
        let ca = a.get_char(i);
        let cb = b.get_char(i);
        assert(a@.skip(i as int)[0] == a@[i as int]);
        assert(b@.skip(i as int)[0] == b@[i as int]);
        if ca != cb {
            return (ca as u32) < (cb as u32);
        }
        assert(a@.skip(i as int).skip(1) =~= a@.skip(i + 1));
        assert(b@.skip(i as int).skip(1) =~= b@.skip(i + 1));
        i = i + 1;
    }
}

/// Tests two strings for equality of their character sequences.
pub fn str_eq(a: &str, b: &str) -> (r: bool)
    ensures
        r == (a@ == b@),
{
    let alen: usize = a.unicode_len();
    let blen: usize = b.unicode_len();
    if alen != blen {
        return false;
    }
    let mut i: usize = 0;
    while i < alen
        invariant
            i <= alen,
            alen == a@.len(),
            alen == b@.len(),
            forall|k: int| 0 <= k < i ==> a@[k] == b@[k],
        decreases alen - i,
    {
        if a.get_char(i) != b.get_char(i) {
            return false;
        }
        i = i + 1;
    }
    assert(a@ =~= b@);
    true
}

// ---------------------------------------------------------------------------
// Substring search
// ---------------------------------------------------------------------------

/// `needle` occurs in `hay` starting at position `i`.
pub open spec fn is_substr_at(hay: Seq<char>, needle: Seq<char>, i: int) -> bool {
    &&& 0 <= i
    &&& i + needle.len() <= hay.len()
    &&& hay.subrange(i, i + needle.len()) == needle
}

/// `needle` occurs somewhere in `hay`; the empty sequence occurs in everything.
pub open spec fn is_substr(hay: Seq<char>, needle: Seq<char>) -> bool {
    exists|i: int| is_substr_at(hay, needle, i)
}

pub(crate) fn match_at(hay: &str, needle: &str, i: usize) -> (r: bool)
    requires
        i + needle@.len() <= hay@.len(),
        hay@.len() <= usize::MAX,
    ensures
        r == is_substr_at(hay@, needle@, i as int),
{
    let nlen: usize = needle.unicode_len();
    let mut j: usize = 0;
    while j < nlen
        invariant
            j <= nlen,
            nlen == needle@.len(),
            i + nlen <= hay@.len(),
            hay@.len() <= usize::MAX,
            forall|k: int| 0 <= k < j ==> hay@[i + k] == needle@[k],
        decreases nlen - j,
    {
        if hay.get_char(i + j) != needle.get_char(j) {
            assert(!is_substr_at(hay@, needle@, i as int)) by {
                if is_substr_at(hay@, needle@, i as int) {
                    let sub = hay@.subrange(i as int, i + needle@.len());
                    assert(sub[j as int] == needle@[j as int]);
                }
            }
            return false;
        }
        j = j + 1;
    }
    assert(hay@.subrange(i as int, i + needle@.len()) =~= needle@);
    true
}

/// Whether `needle`'s characters occur contiguously inside `hay`.
pub fn str_contains(hay: &str, needle: &str) -> (r: bool)
    ensures
        r == is_substr(hay@, needle@),
{
    let hlen: usize = hay.unicode_len();
    let nlen: usize = needle.unicode_len();
    if nlen > hlen {
        assert(!is_substr(hay@, needle@)) by {
            if is_substr(hay@, needle@) {
                let i = choose|i: int| is_substr_at(hay@, needle@, i);
            }
        }
        return false;
    }
    if nlen == 0 {
        assert(is_substr_at(hay@, needle@, 0)) by {
            assert(hay@.subrange(0, 0) =~= needle@);
        }
        return true;
    }
    let mut i: usize = 0;
    while i <= hlen - nlen
        invariant
            0 < nlen <= hlen,
            hlen == hay@.len(),
            nlen == needle@.len(),
            i <= hlen - nlen + 1,
            forall|k: int| 0 <= k < i ==> !is_substr_at(hay@, needle@, k),
        decreases hlen - i,
    {
        if match_at(hay, needle, i) {
            return true;
        }
        i = i + 1;
    }
    assert(!is_substr(hay@, needle@)) by {
        if is_substr(hay@, needle@) {
            let k = choose|k: int| is_substr_at(hay@, needle@, k);
            assert(k <= hlen - nlen);
        }
    }
    false
}

/// `s` with the prefix `pre` removed, or nothing when `pre` is not a prefix.
pub open spec fn strip_prefix_spec(s: Seq<char>, pre: Seq<char>) -> Option<Seq<char>> {
    if is_substr_at(s, pre, 0) {
        Some(s.skip(pre.len() as int))
    } else {
        None
    }
}

/// Removes a prefix from a string when present.
pub fn strip_prefix<'a>(s: &'a str, pre: &str) -> (r: Option<&'a str>)
    ensures
        match r {
            Some(rest) => strip_prefix_spec(s@, pre@) == Some(rest@),
            None => strip_prefix_spec(s@, pre@) is None,
        },
{
    let slen: usize = s.unicode_len();
    let plen: usize = pre.unicode_len();
    if plen > slen {
        assert(!is_substr_at(s@, pre@, 0));
        return None;
    }
    if match_at(s, pre, 0) {
        let rest = s.substring_char(plen, slen);
        proof {
            assert(rest@ =~= s@.skip(plen as int));
        }
        Some(rest)
    } else {
        None
    }
}

/// Pairwise order of neighbours extends to the whole sequence.
pub proof fn lemma_adjacent_sorted(ks: Seq<Seq<char>>)
    requires
        forall|i: int| 0 <= i < ks.len() - 1 ==> lex_lt(#[trigger] ks[i], ks[i + 1]),
    ensures
        forall|i: int, j: int| 0 <= i < j < ks.len() ==> lex_lt(#[trigger] ks[i], #[trigger] ks[j]),
{
    assert forall|i: int, j: int| 0 <= i < j < ks.len() implies lex_lt(
        #[trigger] ks[i],
        #[trigger] ks[j],
    ) by {
        lemma_lex_lt_upto(ks, i, j);
    }
}

proof fn lemma_lex_lt_upto(ks: Seq<Seq<char>>, i: int, j: int)
    requires
        forall|k: int| 0 <= k < ks.len() - 1 ==> lex_lt(#[trigger] ks[k], ks[k + 1]),
        0 <= i < j < ks.len(),
    ensures
        lex_lt(ks[i], ks[j]),
    decreases j - i,
{
    if j == i + 1 {
        assert(lex_lt(ks[i], ks[i + 1]));
    } else {
        lemma_lex_lt_upto(ks, i, j - 1);
        assert(lex_lt(ks[j - 1], ks[j]));
        lemma_lex_trans(ks[i], ks[j - 1], ks[j]);
    }
}

// ---------------------------------------------------------------------------
// Decimal rendering and parsing
// ---------------------------------------------------------------------------

pub open spec fn is_digit(c: char) -> bool {
    '0' <= c && c <= '9'
}

pub open spec fn digit_val(c: char) -> int {
    c as int - '0' as int
}

pub open spec fn digit_char(d: int) -> char {
    if d == 0 {
        '0'
    } else if d == 1 {
        '1'
    } else if d == 2 {
        '2'
    } else if d == 3 {
        '3'
    } else if d == 4 {
        '4'
    } else if d == 5 {
        '5'
    } else if d == 6 {
        '6'
    } else if d == 7 {
        '7'
    } else if d == 8 {
        '8'
    } else {
        '9'
    }
}

/// The usual decimal rendering of `n`, without leading zeros.
pub open spec fn dec_spec(n: nat) -> Seq<char>
    decreases n,
{
    if n < 10 {
        seq![digit_char(n as int)]
    } else {
        dec_spec(n / 10) + seq![digit_char((n % 10) as int)]
    }
}

fn digit_str(d: u32) -> (r: &'static str)
    requires
        d < 10,
    ensures
        r@ == seq![digit_char(d as int)],
{
    let r: &'static str = if d == 0 {
        "0"
    } else if d == 1 {
        "1"
    } else if d == 2 {
        "2"
    } else if d == 3 {
        "3"
    } else if d == 4 {
        "4"
    } else if d == 5 {
        "5"
    } else if d == 6 {
        "6"
    } else if d == 7 {
        "7"
    } else if d == 8 {
        "8"
    } else {
        "9"
    };
    proof {
        reveal_strlit("0");
        reveal_strlit("1");
        reveal_strlit("2");
        reveal_strlit("3");
        reveal_strlit("4");
        reveal_strlit("5");
        reveal_strlit("6");
        reveal_strlit("7");
        reveal_strlit("8");
        reveal_strlit("9");
        assert(r@ =~= seq![digit_char(d as int)]);
    }
    r
}

/// Renders `n` in decimal.
pub fn u64_to_string(n: u64) -> (r: String)
    ensures
        r@ == dec_spec(n as nat),
    decreases n,
{
    if n < 10 {
        String::from_str(digit_str((n % 10) as u32))
    } else {
        let mut s = u64_to_string(n / 10);
        s.append(digit_str((n % 10) as u32));
        s
    }
}

pub open spec fn all_digits(s: Seq<char>) -> bool {
    forall|i: int| 0 <= i < s.len() ==> is_digit(#[trigger] s[i])
}

/// The decimal form that `dec_spec` produces: nonempty, digits only, no
/// leading zero except for zero itself.
pub open spec fn is_canonical_dec(s: Seq<char>) -> bool {
    &&& s.len() > 0
    &&& all_digits(s)
    &&& (s.len() > 1 ==> s[0] != '0')
}

/// The numeric value of a digit string, most significant digit first.
pub open spec fn dec_value(s: Seq<char>) -> int
    decreases s.len(),
{
    if s.len() == 0 {
        0
    } else {
        dec_value(s.drop_last()) * 10 + digit_val(s.last())
    }
}

pub proof fn lemma_dec_spec_canonical(n: nat)
    ensures
        is_canonical_dec(dec_spec(n)),
        dec_value(dec_spec(n)) == n,
        n >= 1 ==> dec_spec(n)[0] != '0',
    decreases n,
{
    if n < 10 {
        let s = dec_spec(n);
        assert(s =~= seq![digit_char(n as int)]);
        assert(s.drop_last() =~= Seq::<char>::empty());
        assert(s.last() == digit_char(n as int));
        assert(digit_val(digit_char(n as int)) == n);
        assert(dec_value(s) == dec_value(s.drop_last()) * 10 + digit_val(s.last()));
        assert(dec_value(Seq::<char>::empty()) == 0);
        assert(dec_value(s) == n);
    } else {
        lemma_dec_spec_canonical(n / 10);
        let pre = dec_spec(n / 10);
        let whole = dec_spec(n);
        assert(whole =~= pre + seq![digit_char((n % 10) as int)]);
        assert(whole.drop_last() =~= pre);
        assert(whole.last() == digit_char((n % 10) as int));
        assert(whole[0] == pre[0]);
        assert(n / 10 >= 1);
        assert(digit_val(digit_char((n % 10) as int)) == n % 10);
        assert(dec_value(whole) == dec_value(whole.drop_last()) * 10 + digit_val(whole.last()));
        assert(dec_value(whole.drop_last()) == dec_value(pre));
        assert(dec_value(pre) == n / 10);
        vstd::arithmetic::div_mod::lemma_fundamental_div_mod(n as int, 10);
        assert(n == 10 * (n as int / 10) + n as int % 10);
        assert(dec_value(whole) == n);
    }
}

pub proof fn lemma_dec_value_nonneg(s: Seq<char>)
    requires
        all_digits(s),
    ensures
        dec_value(s) >= 0,
    decreases s.len(),
{
    if s.len() > 0 {
        assert(is_digit(s[s.len() - 1]));
        assert(all_digits(s.drop_last())) by {
            assert(forall|i: int|
                0 <= i < s.drop_last().len() ==> #[trigger] s.drop_last()[i] == s[i]);
        }
        lemma_dec_value_nonneg(s.drop_last());
    }
}

pub proof fn lemma_dec_value_prefix_mono(s: Seq<char>, j: int)
    requires
        all_digits(s),
        0 <= j <= s.len(),
    ensures
        dec_value(s) >= dec_value(s.take(j)),
    decreases s.len() - j,
{
    if j < s.len() {
        lemma_dec_value_prefix_mono(s, j + 1);
        let t = s.take(j + 1);
        assert(t.drop_last() =~= s.take(j));
        assert(t.last() == s[j]);
        assert(all_digits(s.take(j))) by {
            assert(forall|i: int| 0 <= i < j ==> #[trigger] s.take(j)[i] == s[i]);
        }
        lemma_dec_value_nonneg(s.take(j));
        assert(is_digit(s[j]));
        assert(dec_value(t) == dec_value(s.take(j)) * 10 + digit_val(s[j]));
    } else {
        assert(s.take(j) =~= s);
    }
}

/// Parses a canonical decimal string into a `u32`; rejects the empty string,
/// non-digits, leading zeros, and values above `u32::MAX`.
pub fn parse_u32(s: &str) -> (r: Option<u32>)
    ensures
        match r {
            Some(v) => is_canonical_dec(s@) && dec_value(s@) == v,
            None => !(is_canonical_dec(s@) && dec_value(s@) <= u32::MAX),
        },
{
    let len: usize = s.unicode_len();
    if len == 0 {
        return None;
    }
    if len > 1 && s.get_char(0) == '0' {
        return None;
    }
    let mut acc: u32 = 0;
    let mut i: usize = 0;
    assert(s@.take(0) =~= Seq::<char>::empty());
    while i < len
        invariant
            i <= len,
            len == s@.len(),
            len >= 1,
            len > 1 ==> s@[0] != '0',
            all_digits(s@.take(i as int)),
            acc == dec_value(s@.take(i as int)),
        decreases len - i,
    {
        let c = s.get_char(i);
        let cu = c as u32;
        if cu < '0' as u32 || cu > '9' as u32 {
            assert(!is_digit(s@[i as int]));
            return None;
        }
        let d: u32 = cu - '0' as u32;
        assert(is_digit(s@[i as int]));
        assert(d == digit_val(s@[i as int]));
        let wide: u64 = acc as u64 * 10 + d as u64;
        proof {
            let t = s@.take(i + 1);
            assert(t.drop_last() =~= s@.take(i as int));
            assert(t.last() == s@[i as int]);
            assert(dec_value(t) == acc * 10 + d);
            assert(all_digits(t));
        }
        if wide > u32::MAX as u64 {
            proof {
                if all_digits(s@) {
                    lemma_dec_value_prefix_mono(s@, i + 1);
                    assert(dec_value(s@) >= dec_value(s@.take(i + 1)));
                }
            }
            return None;
        }
        acc = wide as u32;
        i = i + 1;
    }
    assert(s@.take(len as int) =~= s@);
    Some(acc)
}

// ---------------------------------------------------------------------------
// Whitespace and trailing-whitespace trimming
// ---------------------------------------------------------------------------

/// The characters with the Unicode White_Space property, as `char::is_whitespace`
/// recognises them.
pub open spec fn is_wsp(c: char) -> bool {
    let u = c as u32;
    ||| (0x9 <= u && u <= 0xD)
    ||| u == 0x20
    ||| u == 0x85
    ||| u == 0xA0
    ||| u == 0x1680
    ||| (0x2000 <= u && u <= 0x200A)
    ||| u == 0x2028
    ||| u == 0x2029
    ||| u == 0x202F
    ||| u == 0x205F
    ||| u == 0x3000
}

fn is_wsp_char(c: char) -> (r: bool)
    ensures
        r == is_wsp(c),
{
    let u = c as u32;
    (0x9 <= u && u <= 0xD) || u == 0x20 || u == 0x85 || u == 0xA0 || u == 0x1680 || (0x2000 <= u
        && u <= 0x200A) || u == 0x2028 || u == 0x2029 || u == 0x202F || u == 0x205F || u == 0x3000
}

/// `s` with its maximal run of trailing whitespace removed.
pub open spec fn trim_end_spec(s: Seq<char>) -> Seq<char>
    decreases s.len(),
{
    if s.len() > 0 && is_wsp(s.last()) {
        trim_end_spec(s.drop_last())
    } else {
        s
    }
}

/// Removes trailing whitespace, leaving everything else byte-identical.
pub fn trim_end_str(s: &str) -> (r: String)
    ensures
        r@ == trim_end_spec(s@),
{
    let len: usize = s.unicode_len();
    let mut j: usize = len;
    assert(s@.take(len as int) =~= s@);
    loop
        invariant
            j <= len,
            len == s@.len(),
            trim_end_spec(s@) == trim_end_spec(s@.take(j as int)),
        ensures
            j <= len,
            len == s@.len(),
            trim_end_spec(s@) == trim_end_spec(s@.take(j as int)),
            j == 0 || !is_wsp(s@[j - 1]),
        decreases j,
    {
        if j == 0 {
            break;
        }
        let c = s.get_char(j - 1);
        if !is_wsp_char(c) {
            break;
        }
        proof {
            let t = s@.take(j as int);
            assert(t.last() == s@[j - 1]);
            assert(t.drop_last() =~= s@.take(j - 1));
        }
        j = j - 1;
    }
    proof {
        let t = s@.take(j as int);
        if j > 0 {
            assert(t.last() == s@[j - 1]);
            assert(!is_wsp(t.last()));
        }
        assert(trim_end_spec(t) == t);
    }
    String::from_str(s.substring_char(0, j))
}

// ---------------------------------------------------------------------------
// Newline-terminated lines: joining and splitting
// ---------------------------------------------------------------------------

/// No character of `s` is a newline.
pub open spec fn no_nl(s: Seq<char>) -> bool {
    forall|i: int| 0 <= i < s.len() ==> #[trigger] s[i] != '\n'
}

/// The document whose lines are `lines`, each terminated by a newline.
pub open spec fn join_term(lines: Seq<Seq<char>>) -> Seq<char>
    decreases lines.len(),
{
    if lines.len() == 0 {
        Seq::empty()
    } else {
        lines[0] + seq!['\n'] + join_term(lines.skip(1))
    }
}

pub open spec fn split_term_rec(s: Seq<char>, cur: Seq<char>) -> Option<Seq<Seq<char>>>
    decreases s.len(),
{
    if s.len() == 0 {
        if cur.len() == 0 {
            Some(Seq::empty())
        } else {
            None
        }
    } else if s[0] == '\n' {
        match split_term_rec(s.skip(1), Seq::empty()) {
            Some(rest) => Some(seq![cur] + rest),
            None => None,
        }
    } else {
        split_term_rec(s.skip(1), cur.push(s[0]))
    }
}

/// Splits a document into newline-terminated lines; `None` when the document
/// is nonempty and does not end in a newline.
pub open spec fn split_term(s: Seq<char>) -> Option<Seq<Seq<char>>> {
    split_term_rec(s, Seq::empty())
}

/// Processing a newline-free prefix only moves it into the pending line.
proof fn lemma_split_shift(s: Seq<char>, cur: Seq<char>, j: int)
    requires
        0 <= j <= s.len(),
        forall|k: int| 0 <= k < j ==> #[trigger] s[k] != '\n',
    ensures
        split_term_rec(s, cur) == split_term_rec(s.skip(j), cur + s.take(j)),
    decreases j,
{
    if j == 0 {
        assert(s.skip(0) =~= s);
        assert(cur + s.take(0) =~= cur);
    } else {
        assert(s.len() > 0);
        assert(s[0] != '\n');
        lemma_split_shift(s.skip(1), cur.push(s[0]), j - 1);
        assert(s.skip(1).skip(j - 1) =~= s.skip(j));
        assert(cur.push(s[0]) + s.skip(1).take(j - 1) =~= cur + s.take(j));
    }
}

/// Splitting inverts joining, provided no line holds a newline of its own.
pub proof fn lemma_split_join(lines: Seq<Seq<char>>)
    requires
        forall|i: int| 0 <= i < lines.len() ==> no_nl(#[trigger] lines[i]),
    ensures
        split_term(join_term(lines)) == Some(lines),
    decreases lines.len(),
{
    if lines.len() == 0 {
        assert(split_term(join_term(lines)) == Some(Seq::<Seq<char>>::empty()));
        assert(lines =~= Seq::<Seq<char>>::empty());
    } else {
        let head = lines[0];
        let rest = lines.skip(1);
        let doc = join_term(lines);
        assert(doc == head + seq!['\n'] + join_term(rest));
        assert(forall|k: int| 0 <= k < head.len() ==> #[trigger] doc[k] != '\n') by {
            assert(forall|k: int| 0 <= k < head.len() ==> doc[k] == head[k]);
        }
        lemma_split_shift(doc, Seq::empty(), head.len() as int);
        assert(doc.take(head.len() as int) =~= head);
        assert(Seq::<char>::empty() + head =~= head);
        let tail = doc.skip(head.len() as int);
        assert(tail =~= seq!['\n'] + join_term(rest));
        assert(tail[0] == '\n');
        assert(tail.skip(1) =~= join_term(rest));
        assert(forall|i: int| 0 <= i < rest.len() ==> no_nl(#[trigger] rest[i]));
        lemma_split_join(rest);
        assert(split_term_rec(tail, head) == Some(seq![head] + rest));
        assert(seq![head] + rest =~= lines);
    }
}

pub open spec fn prepend_lines(
    pre: Seq<Seq<char>>,
    o: Option<Seq<Seq<char>>>,
) -> Option<Seq<Seq<char>>> {
    match o {
        Some(rest) => Some(pre + rest),
        None => None,
    }
}

/// Splits a document into its newline-terminated lines; `None` when the last
/// line is unterminated.
pub fn split_lines(doc: &str) -> (r: Option<Vec<String>>)
    ensures
        match r {
            Some(v) => split_term(doc@) == Some(v.deep_view()),
            None => split_term(doc@) is None,
        },
{
    let len: usize = doc.unicode_len();
    let mut res: Vec<String> = Vec::new();
    let mut start: usize = 0;
    let mut i: usize = 0;
    proof {
        assert(res.deep_view() =~= Seq::<Seq<char>>::empty());
        assert(doc@.skip(0) =~= doc@);
        assert(Seq::<Seq<char>>::empty() + split_term(doc@)->Some_0 =~= split_term(doc@)->Some_0);
    }
    while i < len
        invariant
            start <= i <= len,
            len == doc@.len(),
            forall|k: int| start <= k < i ==> #[trigger] doc@[k] != '\n',
            split_term(doc@) == prepend_lines(
                res.deep_view(),
                split_term_rec(doc@.skip(start as int), Seq::empty()),
            ),
        decreases len - i,
    {
        let c = doc.get_char(i);
        if c == '\n' {
            let line = String::from_str(doc.substring_char(start, i));
            proof {
                let suffix = doc@.skip(start as int);
                lemma_split_shift(suffix, Seq::empty(), (i - start) as int);
                assert(suffix.take((i - start) as int) =~= doc@.subrange(
                    start as int,
                    i as int,
                ));
                assert(Seq::<char>::empty() + doc@.subrange(start as int, i as int) =~= doc@
                    .subrange(start as int, i as int));
                assert(suffix.skip((i - start) as int) =~= doc@.skip(i as int));
                assert(doc@.skip(i as int)[0] == doc@[i as int]);
                assert(doc@.skip(i as int).skip(1) =~= doc@.skip(i + 1));
            }
            let ghost old_views = res.deep_view();
            res.push(line);
            proof {
                assert(res.deep_view() =~= old_views.push(line@));
                let after = split_term_rec(doc@.skip(i + 1), Seq::empty());
                if after is Some {
                    assert(old_views + (seq![line@] + after->Some_0) =~= old_views.push(line@)
                        + after->Some_0);
                }
            }
            start = i + 1;
        }
        i = i + 1;
    }
    proof {
        let suffix = doc@.skip(start as int);
        lemma_split_shift(suffix, Seq::empty(), (len - start) as int);
        assert(suffix.skip((len - start) as int) =~= Seq::<char>::empty());
        assert(Seq::<char>::empty() + suffix.take((len - start) as int) =~= suffix.take(
            (len - start) as int,
        ));
        assert(suffix.take((len - start) as int) =~= suffix);
    }
    if start < len {
        return None;
    }
    proof {
        assert(doc@.skip(start as int).len() == 0);
        assert(res.deep_view() + Seq::<Seq<char>>::empty() =~= res.deep_view());
    }
    Some(res)
}

/// Whether the string holds a newline anywhere.
pub fn contains_nl(s: &str) -> (r: bool)
    ensures
        r == !no_nl(s@),
{
    let len: usize = s.unicode_len();
    let mut i: usize = 0;
    while i < len
        invariant
            i <= len,
            len == s@.len(),
            forall|k: int| 0 <= k < i ==> #[trigger] s@[k] != '\n',
        decreases len - i,
    {
        if s.get_char(i) == '\n' {
            return true;
        }
        i = i + 1;
    }
    false
}

/// Every line that splitting yields is newline-free.
pub proof fn lemma_split_term_no_nl(s: Seq<char>, cur: Seq<char>)
    requires
        split_term_rec(s, cur) is Some,
        no_nl(cur),
    ensures
        forall|i: int|
            0 <= i < split_term_rec(s, cur)->Some_0.len() ==> no_nl(
                #[trigger] split_term_rec(s, cur)->Some_0[i],
            ),
    decreases s.len(),
{
    let ls = split_term_rec(s, cur)->Some_0;
    if s.len() == 0 {
    } else if s[0] == '\n' {
        lemma_split_term_no_nl(s.skip(1), Seq::empty());
        let rest = split_term_rec(s.skip(1), Seq::empty())->Some_0;
        assert(ls == seq![cur] + rest);
        assert(forall|i: int| 1 <= i < ls.len() ==> ls[i] == rest[i - 1]);
        assert(ls[0] == cur);
    } else {
        assert(no_nl(cur.push(s[0]))) by {
            assert(forall|k: int|
                0 <= k < cur.len() ==> #[trigger] cur.push(s[0])[k] == cur[k]);
            assert(cur.push(s[0])[cur.len() as int] == s[0]);
        }
        lemma_split_term_no_nl(s.skip(1), cur.push(s[0]));
    }
}

// ---------------------------------------------------------------------------
// Separator-joined lines (the watch-later file format)
// ---------------------------------------------------------------------------

/// Lines joined with a newline between them and none at the end.
pub open spec fn join_sep(lines: Seq<Seq<char>>) -> Seq<char>
    decreases lines.len(),
{
    if lines.len() == 0 {
        Seq::empty()
    } else if lines.len() == 1 {
        lines[0]
    } else {
        lines[0] + seq!['\n'] + join_sep(lines.skip(1))
    }
}

pub proof fn lemma_join_sep_push(lines: Seq<Seq<char>>, x: Seq<char>)
    ensures
        join_sep(lines.push(x)) == if lines.len() == 0 {
            x
        } else {
            join_sep(lines) + seq!['\n'] + x
        },
    decreases lines.len(),
{
    let p = lines.push(x);
    if lines.len() == 0 {
        assert(p.len() == 1);
        assert(p[0] == x);
    } else {
        assert(p[0] == lines[0]);
        assert(p.skip(1) =~= lines.skip(1).push(x));
        lemma_join_sep_push(lines.skip(1), x);
        if lines.len() == 1 {
            assert(lines.skip(1).len() == 0);
            assert(join_sep(lines) == lines[0]);
        } else {
            assert((lines[0] + seq!['\n'] + (join_sep(lines.skip(1)) + seq!['\n'] + x)) =~= (
            lines[0] + seq!['\n'] + join_sep(lines.skip(1))) + seq!['\n'] + x);
        }
    }
}

/// Joins lines with a newline separator.
pub fn join_lines_sep(lines: &Vec<String>) -> (r: String)
    ensures
        r@ == join_sep(lines.deep_view()),
{
    let mut r = String::new();
    let mut i: usize = 0;
    proof {
        assert(lines.deep_view().take(0) =~= Seq::<Seq<char>>::empty());
    }
    while i < lines.len()
        invariant
            i <= lines.len(),
            lines.deep_view().len() == lines.len(),
            forall|k: int|
                0 <= k < lines.len() ==> #[trigger] lines.deep_view()[k] == lines@[k]@,
            r@ == join_sep(lines.deep_view().take(i as int)),
        decreases lines.len() - i,
    {
        if i > 0 {
            r.append("\n");
        }
        r.append(lines[i].as_str());
        proof {
            reveal_strlit("\n");
            let pre = lines.deep_view().take(i as int);
            assert(lines.deep_view().take(i + 1) =~= pre.push(lines.deep_view()[i as int]));
            lemma_join_sep_push(pre, lines.deep_view()[i as int]);
            if i == 0 {
                assert(r@ =~= join_sep(lines.deep_view().take(i + 1)));
            } else {
                assert("\n"@ =~= seq!['\n']);
                assert(r@ =~= join_sep(lines.deep_view().take(i + 1)));
            }
        }
        i = i + 1;
    }
    proof {
        assert(lines.deep_view().take(lines.len() as int) =~= lines.deep_view());
    }
    r
}

pub open spec fn split_sep_rec(s: Seq<char>, cur: Seq<char>) -> Seq<Seq<char>>
    decreases s.len(),
{
    if s.len() == 0 {
        if cur.len() == 0 {
            Seq::empty()
        } else {
            seq![cur]
        }
    } else if s[0] == '\n' {
        seq![cur] + split_sep_rec(s.skip(1), Seq::empty())
    } else {
        split_sep_rec(s.skip(1), cur.push(s[0]))
    }
}

/// The lines of `s`, split on newlines, a trailing empty piece dropped —
/// as `str::lines` reads a file without carriage returns.
pub open spec fn lines_of(s: Seq<char>) -> Seq<Seq<char>> {
    split_sep_rec(s, Seq::empty())
}

proof fn lemma_split_sep_shift(s: Seq<char>, cur: Seq<char>, j: int)
    requires
        0 <= j <= s.len(),
        forall|k: int| 0 <= k < j ==> #[trigger] s[k] != '\n',
    ensures
        split_sep_rec(s, cur) == split_sep_rec(s.skip(j), cur + s.take(j)),
    decreases j,
{
    if j == 0 {
        assert(s.skip(0) =~= s);
        assert(cur + s.take(0) =~= cur);
    } else {
        assert(s[0] != '\n');
        lemma_split_sep_shift(s.skip(1), cur.push(s[0]), j - 1);
        assert(s.skip(1).skip(j - 1) =~= s.skip(j));
        assert(cur.push(s[0]) + s.skip(1).take(j - 1) =~= cur + s.take(j));
    }
}

/// Splits a string into its lines, as `str::lines` does on newline-separated
/// text.
pub fn split_lines_lossy(s: &str) -> (r: Vec<String>)
    ensures
        r.deep_view() == lines_of(s@),
{
    let len: usize = s.unicode_len();
    let mut res: Vec<String> = Vec::new();
    let mut start: usize = 0;
    let mut i: usize = 0;
    proof {
        assert(res.deep_view() =~= Seq::<Seq<char>>::empty());
        assert(s@.skip(0) =~= s@);
        assert(Seq::<Seq<char>>::empty() + lines_of(s@) =~= lines_of(s@));
    }
    while i < len
        invariant
            start <= i <= len,
            len == s@.len(),
            forall|k: int| start <= k < i ==> #[trigger] s@[k] != '\n',
            lines_of(s@) == res.deep_view() + split_sep_rec(s@.skip(start as int), Seq::empty()),
        decreases len - i,
    {
        let c = s.get_char(i);
        if c == '\n' {
            let line = String::from_str(s.substring_char(start, i));
            proof {
                let suffix = s@.skip(start as int);
                lemma_split_sep_shift(suffix, Seq::empty(), (i - start) as int);
                assert(suffix.take((i - start) as int) =~= s@.subrange(start as int, i as int));
                assert(Seq::<char>::empty() + s@.subrange(start as int, i as int) =~= s@.subrange(
                    start as int,
                    i as int,
                ));
                assert(suffix.skip((i - start) as int) =~= s@.skip(i as int));
                assert(s@.skip(i as int)[0] == s@[i as int]);
                assert(s@.skip(i as int).skip(1) =~= s@.skip(i + 1));
            }
            let ghost old_views = res.deep_view();
            res.push(line);
            proof {
                assert(res.deep_view() =~= old_views.push(line@));
                assert(old_views + (seq![line@] + split_sep_rec(s@.skip(i + 1), Seq::empty()))
                    =~= old_views.push(line@) + split_sep_rec(s@.skip(i + 1), Seq::empty()));
            }
            start = i + 1;
        }
        i = i + 1;
    }
    proof {
        let suffix = s@.skip(start as int);
        lemma_split_sep_shift(suffix, Seq::empty(), (len - start) as int);
        assert(suffix.skip((len - start) as int) =~= Seq::<char>::empty());
        assert(Seq::<char>::empty() + suffix.take((len - start) as int) =~= suffix.take(
            (len - start) as int,
        ));
        assert(suffix.take((len - start) as int) =~= suffix);
    }
    if start < len {
        let line = String::from_str(s.substring_char(start, len));
        proof {
            assert(s@.skip(start as int).len() > 0);
            assert(s@.subrange(start as int, len as int) =~= s@.skip(start as int));
        }
        let ghost old_views = res.deep_view();
        res.push(line);
        proof {
            assert(res.deep_view() =~= old_views.push(line@));
            assert(old_views + seq![line@] =~= old_views.push(line@));
        }
    } else {
        proof {
            assert(s@.skip(start as int).len() == 0);
            assert(res.deep_view() + Seq::<Seq<char>>::empty() =~= res.deep_view());
        }
    }
    res
}

// ---------------------------------------------------------------------------
// Trusted calls into outside crates
// ---------------------------------------------------------------------------

/// The Unicode-lowercased form of a character sequence, as `str::to_lowercase`
/// computes it; a function of the characters alone.
pub uninterp spec fn lower_of(s: Seq<char>) -> Seq<char>;

/// Relies on `str::to_lowercase`: the result depends on the characters alone,
/// and an empty string stays empty.
#[verifier::external_body]
pub fn lowercase(s: &str) -> (r: String)
    ensures
        r@ == lower_of(s@),
        s@.len() == 0 ==> r@.len() == 0,
{
    s.to_lowercase()
}

/// Relies on `chrono::Utc::now` and `DateTime::format` with `"%y.%m.%d"`:
/// whatever moment the clock reports, the rendering is two zero-padded digits
/// for year-of-century, month, and day, separated by dots.
#[verifier::external_body]
pub fn today_stamp() -> (r: String)
    ensures
        r@.len() == 8,
        r@[2] == '.' && r@[5] == '.',
        is_digit(r@[0]) && is_digit(r@[1]) && is_digit(r@[3]) && is_digit(r@[4]) && is_digit(
            r@[6],
        ) && is_digit(r@[7]),
{
    chrono::Utc::now().format("%y.%m.%d").to_string()
}

} // verus!




