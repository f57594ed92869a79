//! Character-level helpers over `String` and `&str`, stated over `Seq<char>`.

use vstd::prelude::*;

verus! {

/// Appends one character to a string.
///
/// Trusted: calls `String::push`, which the standard library documents as
/// appending the given `char` to the end of the `String`.
#[verifier::external_body]
pub fn push_char(s: &mut String, c: char)
    ensures
        final(s)@ == old(s)@.push(c),
{
    s.push(c);
}

/// Copies the characters of a string slice into a vector.
pub fn chars_of(s: &str) -> (v: Vec<char>)
    ensures
        v@ == s@,
{
    let n = s.unicode_len();
    let mut v: Vec<char> = Vec::new();
    let mut i: usize = 0;
    while i < n
        invariant
            n == s@.len(),
            i <= n,
            v@ == s@.take(i as int),
        decreases n - i,
    {
        v.push(s.get_char(i));
        i = i + 1;
        assert(v@ == s@.take(i as int));
    }
    assert(s@.take(n as int) == s@);
    v
}

/// Builds a string from a slice of characters.
pub fn string_of(cs: &[char]) -> (s: String)
    ensures
        s@ == cs@,
{
    let mut s = String::new();
    let mut i: usize = 0;
    while i < cs.len()
        invariant
            i <= cs@.len(),
            s@ == cs@.take(i as int),
        decreases cs.len() - i,
    {
        push_char(&mut s, cs[i]);
        i = i + 1;
        assert(s@ == cs@.take(i as int));
    }
    assert(cs@.take(cs@.len() as int) == cs@);
    s
}


/// `c` is an ASCII letter or digit.
pub open spec fn is_ascii_alnum(c: char) -> bool {
    ('a' <= c && c <= 'z') || ('A' <= c && c <= 'Z') || ('0' <= c && c <= '9')
}

/// What `char::is_alphanumeric` answers for a character outside ASCII (the
/// Unicode `Alphabetic` and `Numeric` properties).
pub uninterp spec fn unicode_alphanumeric(c: char) -> bool;

/// What `char::is_alphanumeric` answers: ASCII letters and digits below 128,
/// the Unicode properties above.
pub open spec fn char_is_alphanumeric(c: char) -> bool {
    if (c as u32) < 128 {
        is_ascii_alnum(c)
    } else {
        unicode_alphanumeric(c)
    }
}

/// Trusted: calls `char::is_alphanumeric`. Its contract claims that on ASCII
/// the answer is "letter or digit", as the standard library implements it, and
/// names the answer above ASCII, which depends on the character alone.
#[verifier::external_body]
pub fn is_alphanumeric(c: char) -> (r: bool)
    ensures
        r == char_is_alphanumeric(c),
        (c as u32) >= 128 ==> r == unicode_alphanumeric(c),
{
    c.is_alphanumeric()
}

/// `pat` occurs in `v` at position `at`.
pub open spec fn occurs_at(v: Seq<char>, at: int, pat: Seq<char>) -> bool {
    0 <= at && at + pat.len() <= v.len() && v.subrange(at, at + pat.len()) == pat
}

/// Tests whether `pat` occurs in `v` at position `at`.
pub fn matches_at(v: &Vec<char>, at: usize, pat: &Vec<char>) -> (r: bool)
    ensures
        r == occurs_at(v@, at as int, pat@),
{
    if at > v.len() || pat.len() > v.len() - at {
        return false;
    }
    let mut j: usize = 0;
    while j < pat.len()
        invariant
            at + pat@.len() <= v@.len(),
            v@.len() == v.len(),
            j <= pat@.len(),
            forall|k: int| 0 <= k < j ==> v@[at + k] == pat@[k],
        decreases pat.len() - j,
    {
        if v[at + j] != pat[j] {
            assert(v@.subrange(at as int, at + pat@.len())[j as int] != pat@[j as int]);
            return false;
        }
        j = j + 1;
    }
    assert(v@.subrange(at as int, at + pat@.len()) =~= pat@);
    true
}

/// What `char::is_whitespace` answers for a character outside ASCII (the
/// Unicode `White_Space` property).
pub uninterp spec fn unicode_whitespace(c: char) -> bool;

/// What `char::is_whitespace` answers: space and `\t` to `\r` below 128,
/// the Unicode property above.
pub open spec fn char_is_whitespace(c: char) -> bool {
    if (c as u32) < 128 {
        c == ' ' || ('\t' <= c && c <= '\r')
    } else {
        unicode_whitespace(c)
    }
}

/// Trusted: calls `char::is_whitespace`. Its contract claims the ASCII answer
/// (space, tab, line feed, vertical tab, form feed, carriage return), as the
/// standard library implements it, and names the answer above ASCII.
#[verifier::external_body]
pub fn is_whitespace(c: char) -> (r: bool)
    ensures
        r == char_is_whitespace(c),
        (c as u32) >= 128 ==> r == unicode_whitespace(c),
{
    c.is_whitespace()
}

/// `s` holds nothing but whitespace (so `s.trim()` is empty).
pub open spec fn is_blank(s: Seq<char>) -> bool {
    forall|i: int| 0 <= i < s.len() ==> char_is_whitespace(#[trigger] s[i])
}

/// Tests whether a string is empty once trimmed.
pub fn blank(s: &str) -> (r: bool)
    ensures
        r == is_blank(s@),
{
    let n = s.unicode_len();
    let mut i: usize = 0;
    while i < n
        invariant
            n == s@.len(),
            i <= n,
            forall|k: int| 0 <= k < i ==> char_is_whitespace(#[trigger] s@[k]),
        decreases n - i,
    {
        if !is_whitespace(s.get_char(i)) {
            return false;
        }
        i = i + 1;
    }
    true
}

/// `p` is a prefix of `s`.
pub open spec fn has_prefix(s: Seq<char>, p: Seq<char>) -> bool {
    occurs_at(s, 0, p)
}

/// Tests whether `s` starts with `p`.
pub fn starts_with(s: &str, p: &str) -> (r: bool)
    ensures
        r == has_prefix(s@, p@),
{
    let sv = chars_of(s);
    let pv = chars_of(p);
    matches_at(&sv, 0, &pv)
}

/// `p` is a suffix of `s`.
pub open spec fn has_suffix(s: Seq<char>, p: Seq<char>) -> bool {
    p.len() <= s.len() && occurs_at(s, s.len() - p.len(), p)
}

/// Tests whether `s` ends with `p`.
pub fn ends_with(s: &str, p: &str) -> (r: bool)
    ensures
        r == has_suffix(s@, p@),
{
    let sv = chars_of(s);
    let pv = chars_of(p);
    if pv.len() > sv.len() {
        return false;
    }
    matches_at(&sv, sv.len() - pv.len(), &pv)
}

/// Copies a vector of strings.
pub fn clone_strings(v: &Vec<String>) -> (r: Vec<String>)
    ensures
        r.deep_view() == v.deep_view(),
{
    let mut r: Vec<String> = Vec::new();
    let mut i: usize = 0;
    while i < v.len()
        invariant
            i <= v@.len(),
            r@.len() == i,
            forall|k: int| 0 <= k < i ==> #[trigger] r@[k]@ == v@[k]@,
        decreases v.len() - i,
    {
        r.push(v[i].clone());
        i = i + 1;
    }
    assert(r.deep_view() =~= v.deep_view());
    r
}

/// Copies an optional string.
pub fn clone_opt(o: &Option<String>) -> (r: Option<String>)
    ensures
        opt_view(r) == opt_view(*o),
{
    match o {
        Some(s) => Some(s.clone()),
        None => None,
    }
}

/// The view of an optional string.
pub open spec fn opt_view(o: Option<String>) -> Option<Seq<char>> {
    match o {
        Some(s) => Some(s@),
        None => None,
    }
}

/// Concatenation of three strings.
pub fn concat3(a: &str, b: &str, c: &str) -> (r: String)
    ensures
        r@ == a@ + b@ + c@,
{
    let mut r = String::from_str(a);
    r.append(b);
    r.append(c);
    r
}

/// The first position at or after `from` where `pat` occurs in `s`.
pub open spec fn find_from(s: Seq<char>, pat: Seq<char>, from: int) -> Option<int>
    decreases s.len() + 1 - from,
{
    if from < 0 || from + pat.len() > s.len() {
        None
    } else if occurs_at(s, from, pat) {
        Some(from)
    } else {
        find_from(s, pat, from + 1)
    }
}

/// `find_from` answers the first occurrence, and answers `None` only where
/// there is none.
pub proof fn lemma_find_from(s: Seq<char>, pat: Seq<char>, from: int)
    requires
        0 <= from,
    ensures
        match find_from(s, pat, from) {
            Some(i) => from <= i && i + pat.len() <= s.len() && occurs_at(s, i, pat)
                && forall|j: int| from <= j < i ==> !occurs_at(s, j, pat),
            None => forall|j: int| from <= j ==> !occurs_at(s, j, pat),
        },
    decreases s.len() + 1 - from,
{
    if from + pat.len() <= s.len() && !occurs_at(s, from, pat) {
        lemma_find_from(s, pat, from + 1);
    }
}

pub proof fn lemma_find_from_shift(s: Seq<char>, pat: Seq<char>, p: int, k: int)
    requires
        0 <= p <= s.len(),
        0 <= k,
    ensures
        find_from(s, pat, p + k) == match find_from(s.skip(p), pat, k) {
            Some(i) => Some(i + p),
            None => None::<int>,
        },
    decreases s.len() + 1 - (p + k),
{
    let t = s.skip(p);
    if p + k + pat.len() <= s.len() {
        assert(s.subrange(p + k, p + k + pat.len()) == t.subrange(k, k + pat.len()));
        if !occurs_at(s, p + k, pat) {
            lemma_find_from_shift(s, pat, p, k + 1);
        }
    }
}

/// Finds the first occurrence of `pat` in `v` at or after `from`.
pub fn find(v: &Vec<char>, pat: &Vec<char>, from: usize) -> (r: Option<usize>)
    requires
        pat@.len() > 0,
    ensures
        match r {
            Some(i) => find_from(v@, pat@, from as int) == Some(i as int),
            None => find_from(v@, pat@, from as int) is None,
        },
{
    let mut i = from;
    while i <= v.len() && pat.len() <= v.len() - i
        invariant
            from <= i,
            pat@.len() > 0,
            find_from(v@, pat@, from as int) == find_from(v@, pat@, i as int),
        decreases v.len() + 1 - i,
    {
        if matches_at(v, i, pat) {
            return Some(i);
        }
        i = i + 1;
    }
    None
}

/// `s` with every non-overlapping occurrence of the non-empty `pat`, from
/// left to right, replaced by `rep` (`str::replace`).
pub open spec fn replace_all(s: Seq<char>, pat: Seq<char>, rep: Seq<char>) -> Seq<char>
    decreases s.len(),
{
    if pat.len() == 0 {
        s
    } else {
        match find_from(s, pat, 0) {
            Some(i) => {
                proof {
                    lemma_find_from(s, pat, 0);
                }
                s.take(i) + rep + replace_all(s.skip(i + pat.len()), pat, rep)
            },
            None => s,
        }
    }
}

/// Appends `v[from..to]` to `out`.
pub fn append_range(out: &mut String, v: &Vec<char>, from: usize, to: usize)
    requires
        from <= to <= v@.len(),
    ensures
        final(out)@ == old(out)@ + v@.subrange(from as int, to as int),
{
    let mut k = from;
    while k < to
        invariant
            from <= k <= to <= v@.len(),
            out@ == old(out)@ + v@.subrange(from as int, k as int),
        decreases to - k,
    {
        push_char(out, v[k]);
        k = k + 1;
        assert(out@ == old(out)@ + v@.subrange(from as int, k as int));
    }
}

/// Replaces every occurrence of `pat` in `s` by `rep`.
pub fn replace(s: &str, pat: &str, rep: &str) -> (r: String)
    requires
        pat@.len() > 0,
    ensures
        r@ == replace_all(s@, pat@, rep@),
{
    let sv = chars_of(s);
    let pv = chars_of(pat);
    let mut out = String::new();
    let mut p: usize = 0;
    assert(sv@.skip(0) == sv@);
    loop
        invariant
            p <= sv@.len(),
            sv@.len() == sv.len(),
            sv@ == s@,
            pv@ == pat@,
            pv@.len() > 0,
            out@ + replace_all(sv@.skip(p as int), pv@, rep@) == replace_all(sv@, pv@, rep@),
        decreases sv@.len() - p,
    {
        let ghost rest = sv@.skip(p as int);
        proof {
            lemma_find_from_shift(sv@, pv@, p as int, 0);
        }
        match find(&sv, &pv, p) {
            Some(i) => {
                proof {
                    lemma_find_from(sv@, pv@, p as int);
                    assert(find_from(sv@, pv@, p as int) == Some(i as int));
                    assert(find_from(rest, pv@, 0) == Some(i - p));
                    assert(i + pv@.len() <= sv@.len());
                    assert(sv@.subrange(p as int, i as int) == rest.take(i - p));
                    assert(sv@.skip(i + pv@.len()) == rest.skip(i - p + pv@.len()));
                }
                append_range(&mut out, &sv, p, i);
                out.append(rep);
                assert(replace_all(rest, pv@, rep@) == rest.take(i - p) + rep@ + replace_all(rest.skip(i - p + pv@.len()), pv@, rep@));
                p = i + pv.len();
            },
            None => {
                append_range(&mut out, &sv, p, sv.len());
                assert(sv@.subrange(p as int, sv@.len() as int) == rest);
                assert(find_from(rest, pv@, 0) is None);
                assert(replace_all(rest, pv@, rep@) == rest);
                return out;
            },
        }
    }
}

/// Tests whether two strings hold the same characters.
pub fn same_text(a: &str, b: &str) -> (r: bool)
    ensures
        r == (a@ == b@),
{
    let av = chars_of(a);
    let bv = chars_of(b);
    if av.len() != bv.len() {
        return false;
    }
    let r = matches_at(&av, 0, &bv);
    assert(av@.subrange(0, bv@.len() as int) == av@);
    r
}

/// Tests whether `v` holds a string equal to `s`.
pub fn contains_str(v: &Vec<String>, s: &str) -> (r: bool)
    ensures
        r == v.deep_view().contains(s@),
{
    let mut i: usize = 0;
    while i < v.len()
        invariant
            i <= v@.len(),
            forall|k: int| 0 <= k < i ==> #[trigger] v@[k]@ != s@,
        decreases v.len() - i,
    {
        if same_text(v[i].as_str(), s) {
            assert(v.deep_view()[i as int] == s@);
            return true;
        }
        i = i + 1;
    }
    assert(!v.deep_view().contains(s@)) by {
        if v.deep_view().contains(s@) {
            let k = choose|k: int| 0 <= k < v.deep_view().len() && v.deep_view()[k] == s@;
            assert(v@[k]@ == s@);
        }
    }
    false
}

/// Number of backslashes at the end of `e`.
pub open spec fn trailing_backslashes(e: Seq<char>) -> nat
    decreases e.len(),
{
    if e.len() > 0 && e.last() == '\\' {
        1 + trailing_backslashes(e.drop_last())
    } else {
        0
    }
}

/// Every `q` in `e` follows an odd run of backslashes, so an escaped string
/// literal delimited by `q` cannot be closed by anything inside it.
pub open spec fn quotes_escaped(e: Seq<char>, q: char) -> bool {
    forall|i: int| 0 <= i < e.len() && #[trigger] e[i] == q ==> trailing_backslashes(e.take(i)) % 2 == 1
}

/// `e` ends with an even run of backslashes (none escapes what follows).
pub open spec fn ends_even(e: Seq<char>) -> bool {
    trailing_backslashes(e) % 2 == 0
}

/// A piece that keeps an escaped text well formed when appended to one.
pub open spec fn good_piece(p: Seq<char>, q: char) -> bool {
    quotes_escaped(p, q) && ends_even(p)
}

proof fn lemma_trailing_append(a: Seq<char>, t: Seq<char>)
    requires
        ends_even(a),
    ensures
        trailing_backslashes(a + t) % 2 == trailing_backslashes(t) % 2,
    decreases t.len(),
{
    if t.len() == 0 {
        assert(a + t == a);
    } else {
        assert((a + t).drop_last() == a + t.drop_last());
        lemma_trailing_append(a, t.drop_last());
    }
}

/// Appending a good piece to a well-escaped text keeps it well escaped.
pub proof fn lemma_append_good_piece(e: Seq<char>, p: Seq<char>, q: char)
    requires
        quotes_escaped(e, q),
        ends_even(e),
        good_piece(p, q),
    ensures
        quotes_escaped(e + p, q),
        ends_even(e + p),
{
    lemma_trailing_append(e, p);
    assert forall|i: int| 0 <= i < (e + p).len() && #[trigger] (e + p)[i] == q implies trailing_backslashes((e + p).take(i)) % 2 == 1 by {
        if i < e.len() {
            assert((e + p).take(i) == e.take(i));
            assert(e[i] == q);
        } else {
            let j = i - e.len();
            assert((e + p).take(i) == e + p.take(j));
            assert(p[j] == q);
            lemma_trailing_append(e, p.take(j));
        }
    }
}

} // verus!
