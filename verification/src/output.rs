//! Result format and helpers: the file-name slug of a route, the content hash
//! used for de-duplication, and the counts of a capture.

use vstd::prelude::*;
use crate::text::{chars_of, char_is_alphanumeric, is_alphanumeric, matches_at, occurs_at, push_char};

verus! {

/// Characters that a slug keeps as they are.
pub open spec fn slug_keeps(c: char) -> bool {
    char_is_alphanumeric(c) || c == '-' || c == '.'
}

/// The part of `s` after its last `#` (all of `s` when it has none).
pub open spec fn after_last_hash(s: Seq<char>) -> Seq<char>
    decreases s.len(),
{
    if s.len() == 0 {
        s
    } else if s.last() == '#' {
        Seq::empty()
    } else {
        after_last_hash(s.drop_last()).push(s.last())
    }
}

pub open spec fn http_prefix() -> Seq<char> {
    seq!['h', 't', 't', 'p', ':', '/', '/']
}

pub open spec fn https_prefix() -> Seq<char> {
    seq!['h', 't', 't', 'p', 's', ':', '/', '/']
}

/// `s` without a leading `http://` or, failing that, `https://`.
pub open spec fn strip_scheme(s: Seq<char>) -> Seq<char> {
    if occurs_at(s, 0, http_prefix()) {
        s.skip(7)
    } else if occurs_at(s, 0, https_prefix()) {
        s.skip(8)
    } else {
        s
    }
}

/// Kept characters stay; each run of other characters that follows a kept
/// character becomes one `_`; other characters at the start are dropped.
pub open spec fn collapse(s: Seq<char>) -> Seq<char>
    decreases s.len(),
{
    if s.len() == 0 {
        Seq::empty()
    } else {
        let prev = collapse(s.drop_last());
        if slug_keeps(s.last()) {
            prev.push(s.last())
        } else if prev.len() > 0 && prev.last() != '_' {
            prev.push('_')
        } else {
            prev
        }
    }
}

/// `s` without its leading characters equal to `c`.
pub open spec fn trim_leading(s: Seq<char>, c: char) -> Seq<char>
    decreases s.len(),
{
    if s.len() > 0 && s[0] == c {
        trim_leading(s.drop_first(), c)
    } else {
        s
    }
}

/// `s` without its trailing characters equal to `c`.
pub open spec fn trim_trailing(s: Seq<char>, c: char) -> Seq<char>
    decreases s.len(),
{
    if s.len() > 0 && s.last() == c {
        trim_trailing(s.drop_last(), c)
    } else {
        s
    }
}

pub open spec fn home() -> Seq<char> {
    seq!['h', 'o', 'm', 'e']
}

/// The slug of a route: the part after the last `#`, without an `http://` or
/// `https://` prefix, with runs of other characters than letters, digits, `-`
/// and `.` turned into single `_`, trimmed of `_`; `home` when nothing is left.
pub open spec fn slug_of(route: Seq<char>) -> Seq<char> {
    let t = trim_trailing(trim_leading(collapse(strip_scheme(after_last_hash(route))), '_'), '_');
    if t.len() == 0 {
        home()
    } else {
        t
    }
}

/// File name for a route: `/orders/o1?x=1` gives `orders_o1_x_1`, `/` gives `home`.
pub fn slug(route: &str) -> (res: String)
    ensures
        res@ == slug_of(route@),
{
    let cs = chars_of(route);
    let n = cs.len();
    // Start of the part after the last '#'.
    let mut start: usize = 0;
    let mut i: usize = 0;
    while i < n
        invariant
            n == cs@.len(),
            start <= i <= n,
            after_last_hash(cs@.take(i as int)) == cs@.subrange(start as int, i as int),
        decreases n - i,
    {
        assert(cs@.take(i + 1).drop_last() == cs@.take(i as int));
        if cs[i] == '#' {
            start = i + 1;
        } else {
            assert(cs@.subrange(start as int, i + 1) == cs@.subrange(start as int, i as int).push(cs@[i as int]));
        }
        i = i + 1;
    }
    assert(cs@.take(n as int) == cs@);
    let ghost path = cs@.subrange(start as int, n as int);
    assert(path == after_last_hash(route@));

    let http = chars_of("http://");
    let https = chars_of("https://");
    proof {
        reveal_strlit("http://");
        reveal_strlit("https://");
        assert(http@ =~= http_prefix());
        assert(https@ =~= https_prefix());
    }
    let off: usize = if matches_at(&cs, start, &http) {
        proof { assert(occurs_at(path, 0, http_prefix()) == occurs_at(cs@, start as int, http_prefix())) by {
            if start + 7 <= n {
                assert(path.subrange(0, 7) == cs@.subrange(start as int, start + 7));
            }
        } }
        start + 7
    } else if matches_at(&cs, start, &https) {
        proof {
            assert(!occurs_at(path, 0, http_prefix())) by {
                if start + 7 <= n {
                    assert(path.subrange(0, 7) == cs@.subrange(start as int, start + 7));
                }
            }
            assert(path.subrange(0, 8) == cs@.subrange(start as int, start + 8));
        }
        start + 8
    } else {
        proof {
            assert(!occurs_at(path, 0, http_prefix())) by {
                if start + 7 <= n {
                    assert(path.subrange(0, 7) == cs@.subrange(start as int, start + 7));
                }
            }
            assert(!occurs_at(path, 0, https_prefix())) by {
                if start + 8 <= n {
                    assert(path.subrange(0, 8) == cs@.subrange(start as int, start + 8));
                }
            }
        }
        start
    };
    let ghost body = cs@.subrange(off as int, n as int);
    assert(body =~= strip_scheme(path));

    let mut out: Vec<char> = Vec::new();
    let mut prev_sep = true;
    let mut k: usize = off;
    while k < n
        invariant
            n == cs@.len(),
            off <= k <= n,
            out@ == collapse(cs@.subrange(off as int, k as int)),
            prev_sep == (out@.len() == 0 || out@.last() == '_'),
        decreases n - k,
    {
        let ch = cs[k];
        assert(cs@.subrange(off as int, k + 1).drop_last() == cs@.subrange(off as int, k as int));
        if is_alphanumeric(ch) || ch == '-' || ch == '.' {
            out.push(ch);
            prev_sep = false;
        } else if !prev_sep {
            out.push('_');
            prev_sep = true;
        }
        k = k + 1;
    }
    let len = out.len();
    let mut lo: usize = 0;
    assert(out@.subrange(0, len as int) == out@);
    while lo < len && out[lo] == '_'
        invariant
            len == out@.len(),
            lo <= len,
            trim_leading(out@, '_') == trim_leading(out@.subrange(lo as int, len as int), '_'),
        decreases len - lo,
    {
        assert(out@.subrange(lo as int, len as int).drop_first() == out@.subrange(lo + 1, len as int));
        lo = lo + 1;
    }
    let mut hi: usize = len;
    while hi > lo && out[hi - 1] == '_'
        invariant
            len == out@.len(),
            lo <= hi <= len,
            trim_trailing(trim_leading(out@, '_'), '_') == trim_trailing(out@.subrange(lo as int, hi as int), '_'),
        decreases hi,
    {
        assert(out@.subrange(lo as int, hi as int).drop_last() == out@.subrange(lo as int, hi - 1));
        hi = hi - 1;
    }
    assert(trim_trailing(trim_leading(out@, '_'), '_') == out@.subrange(lo as int, hi as int));
    if lo == hi {
        let h = String::from_str("home");
        proof {
            reveal_strlit("home");
        }
        assert(h@ =~= home());
        h
    } else {
        let mut s = String::new();
        let mut j: usize = lo;
        while j < hi
            invariant
                lo <= j <= hi <= len,
                len == out@.len(),
                s@ == out@.subrange(lo as int, j as int),
            decreases hi - j,
        {
            push_char(&mut s, out[j]);
            j = j + 1;
            assert(s@ == out@.subrange(lo as int, j as int));
        }
        s
    }
}

/// Characters that can stand in a slug.
pub open spec fn is_slug_char(c: char) -> bool {
    slug_keeps(c) || c == '_'
}

/// A non-empty run of kept characters and single `_` separators, neither
/// starting nor ending with `_`.
pub open spec fn well_formed_slug(t: Seq<char>) -> bool {
    &&& t.len() > 0
    &&& forall|i: int| 0 <= i < t.len() ==> is_slug_char(#[trigger] t[i])
    &&& t[0] != '_'
    &&& t.last() != '_'
    &&& forall|i: int| 0 <= i < t.len() - 1 ==> !(#[trigger] t[i] == '_' && t[i + 1] == '_')
}

/// Slug characters, no leading `_`, no two `_` in a row.
spec fn collapsed_shape(s: Seq<char>) -> bool {
    &&& forall|i: int| 0 <= i < s.len() ==> is_slug_char(#[trigger] s[i])
    &&& s.len() > 0 ==> s[0] != '_'
    &&& forall|i: int| 0 <= i < s.len() - 1 ==> !(#[trigger] s[i] == '_' && s[i + 1] == '_')
}

proof fn lemma_collapse_shape(s: Seq<char>)
    ensures
        collapsed_shape(collapse(s)),
    decreases s.len(),
{
    if s.len() > 0 {
        lemma_collapse_shape(s.drop_last());
        let prev = collapse(s.drop_last());
        let c = collapse(s);
        if slug_keeps(s.last()) {
            assert(c == prev.push(s.last()));
            assert(s.last() != '_');
            assert forall|i: int| 0 <= i < c.len() - 1 implies !(#[trigger] c[i] == '_' && c[i + 1] == '_') by {
                if i < prev.len() - 1 {
                    assert(c[i] == prev[i] && c[i + 1] == prev[i + 1]);
                }
            }
            assert forall|i: int| 0 <= i < c.len() implies is_slug_char(#[trigger] c[i]) by {
                if i < prev.len() {
                    assert(c[i] == prev[i]);
                }
            }
        } else if prev.len() > 0 && prev.last() != '_' {
            assert(c == prev.push('_'));
            assert forall|i: int| 0 <= i < c.len() - 1 implies !(#[trigger] c[i] == '_' && c[i + 1] == '_') by {
                if i < prev.len() - 1 {
                    assert(c[i] == prev[i] && c[i + 1] == prev[i + 1]);
                }
            }
            assert forall|i: int| 0 <= i < c.len() implies is_slug_char(#[trigger] c[i]) by {
                if i < prev.len() {
                    assert(c[i] == prev[i]);
                }
            }
        }
    }
}

proof fn lemma_trim_trailing(s: Seq<char>, c: char) -> (m: int)
    ensures
        0 <= m <= s.len(),
        trim_trailing(s, c) == s.take(m),
        m == 0 || s[m - 1] != c,
    decreases s.len(),
{
    if s.len() > 0 && s.last() == c {
        let m = lemma_trim_trailing(s.drop_last(), c);
        assert(s.drop_last().take(m) == s.take(m));
        m
    } else {
        assert(s.take(s.len() as int) == s);
        s.len() as int
    }
}

/// A slug is never empty, is made of letters, digits, `-`, `.` and single `_`
/// separators, and neither starts nor ends with `_`.
pub proof fn lemma_slug_well_formed(route: Seq<char>)
    ensures
        well_formed_slug(slug_of(route)),
{
    let c = collapse(strip_scheme(after_last_hash(route)));
    lemma_collapse_shape(strip_scheme(after_last_hash(route)));
    assert(trim_leading(c, '_') == c);
    let m = lemma_trim_trailing(c, '_');
    let t = c.take(m);
    if m == 0 {
        let h = home();
        assert(h[0] == 'h' && h[1] == 'o' && h[2] == 'm' && h[3] == 'e');
        assert(is_slug_char('h') && is_slug_char('o') && is_slug_char('m') && is_slug_char('e'));
        assert(well_formed_slug(h));
    } else {
        assert forall|i: int| 0 <= i < t.len() implies is_slug_char(#[trigger] t[i]) by {
            assert(t[i] == c[i]);
        }
        assert forall|i: int| 0 <= i < t.len() - 1 implies !(#[trigger] t[i] == '_' && t[i + 1] == '_') by {
            assert(t[i] == c[i] && t[i + 1] == c[i + 1]);
        }
        assert(t[0] == c[0]);
    }
}

/// A slug names one file: it holds no `/`, `\`, `#` or `:`.
pub proof fn lemma_slug_is_one_component(route: Seq<char>)
    ensures
        forall|i: int| 0 <= i < slug_of(route).len() ==> {
            let c = #[trigger] slug_of(route)[i];
            c != '/' && c != '\\' && c != '#' && c != ':'
        },
{
    lemma_slug_well_formed(route);
}

proof fn lemma_after_last_hash_without_hash(s: Seq<char>)
    requires
        forall|i: int| 0 <= i < s.len() ==> s[i] != '#',
    ensures
        after_last_hash(s) == s,
    decreases s.len(),
{
    if s.len() > 0 {
        lemma_after_last_hash_without_hash(s.drop_last());
        assert(s.drop_last().push(s.last()) == s);
    }
}

proof fn lemma_collapse_fixed(s: Seq<char>)
    requires
        collapsed_shape(s),
    ensures
        collapse(s) == s,
    decreases s.len(),
{
    if s.len() > 0 {
        let p = s.drop_last();
        assert forall|i: int| 0 <= i < p.len() implies is_slug_char(#[trigger] p[i]) by {
            assert(p[i] == s[i]);
        }
        assert forall|i: int| 0 <= i < p.len() - 1 implies !(#[trigger] p[i] == '_' && p[i + 1] == '_') by {
            assert(p[i] == s[i] && p[i + 1] == s[i + 1]);
        }
        lemma_collapse_fixed(p);
        assert(p.push(s.last()) == s);
        if !slug_keeps(s.last()) {
            assert(s.last() == '_');
            assert(s.len() >= 2);
            assert(s[s.len() - 2] == p.last());
        }
    }
}

/// Slugging a slug gives it back: slugs are stable names.
pub proof fn lemma_slug_idempotent(route: Seq<char>)
    ensures
        slug_of(slug_of(route)) == slug_of(route),
{
    let t = slug_of(route);
    lemma_slug_well_formed(route);
    lemma_after_last_hash_without_hash(t);
    if occurs_at(t, 0, http_prefix()) {
        assert(t.subrange(0, 7)[4] == ':');
        assert(t[4] == ':');
    }
    if occurs_at(t, 0, https_prefix()) {
        assert(t.subrange(0, 8)[5] == ':');
        assert(t[5] == ':');
    }
    assert(strip_scheme(t) == t);
    lemma_collapse_fixed(t);
}

proof fn lemma_after_last_hash_append(a: Seq<char>, b: Seq<char>)
    ensures
        after_last_hash(a.push('#') + b) == after_last_hash(b),
    decreases b.len(),
{
    if b.len() == 0 {
        assert(a.push('#') + b == a.push('#'));
        assert(a.push('#').drop_last() == a);
    } else {
        lemma_after_last_hash_append(a, b.drop_last());
        assert((a.push('#') + b).drop_last() == a.push('#') + b.drop_last());
    }
}

proof fn lemma_collapse_keeps(s: Seq<char>)
    ensures
        collapse(s).filter(|c: char| slug_keeps(c)) == s.filter(|c: char| slug_keeps(c)),
    decreases s.len(),
{
    reveal(Seq::filter);
    if s.len() > 0 {
        lemma_collapse_keeps(s.drop_last());
        let prev = collapse(s.drop_last());
        assert(!slug_keeps('_'));
        if slug_keeps(s.last()) {
            assert(prev.push(s.last()).drop_last() == prev);
        } else if prev.len() > 0 && prev.last() != '_' {
            assert(prev.push('_').drop_last() == prev);
        }
    }
}

proof fn lemma_trim_keeps(s: Seq<char>)
    ensures
        trim_leading(s, '_').filter(|c: char| slug_keeps(c)) == s.filter(|c: char| slug_keeps(c)),
        trim_trailing(s, '_').filter(|c: char| slug_keeps(c)) == s.filter(|c: char| slug_keeps(c)),
    decreases s.len(),
{
    reveal(Seq::filter);
    assert(!slug_keeps('_'));
    if s.len() > 0 {
        lemma_trim_keeps(s.drop_last());
        if s[0] == '_' {
            lemma_trim_keeps(s.drop_first());
            s.drop_first().lemma_filter_prepend('_', |c: char| slug_keeps(c));
            assert(seq!['_'] + s.drop_first() == s);
        }
    }
}

/// A slug keeps every letter, digit, `-` and `.` of the route, in order, and
/// adds none (for a route without `#` that does not start with a scheme);
/// a route with none of them is `home`.
pub proof fn lemma_slug_keeps_route_chars(r: Seq<char>)
    requires
        forall|i: int| 0 <= i < r.len() ==> r[i] != '#',
        !occurs_at(r, 0, http_prefix()),
        !occurs_at(r, 0, https_prefix()),
    ensures
        r.filter(|c: char| slug_keeps(c)).len() > 0 ==> slug_of(r).filter(|c: char| slug_keeps(c)) == r.filter(|c: char| slug_keeps(c)),
        r.filter(|c: char| slug_keeps(c)).len() == 0 ==> slug_of(r) == seq!['h', 'o', 'm', 'e'],
{
    lemma_after_last_hash_without_hash(r);
    assert(strip_scheme(r) == r);
    let c = collapse(r);
    lemma_collapse_keeps(r);
    lemma_trim_keeps(c);
    lemma_trim_keeps(trim_leading(c, '_'));
    let t = trim_trailing(trim_leading(c, '_'), '_');
    if t.len() == 0 {
        assert(t =~= Seq::<char>::empty());
    } else {
        lemma_slug_well_formed(r);
        assert(slug_of(r) == t);
        assert(is_slug_char(t[0]) && t[0] != '_');
        t.lemma_filter_contains(|c: char| slug_keeps(c), 0);
    }
}

/// An `http://` or `https://` in front of a route makes no difference to its
/// slug, for a route without `#` that does not itself start with a scheme.
pub proof fn lemma_slug_ignores_scheme(r: Seq<char>)
    requires
        forall|i: int| 0 <= i < r.len() ==> r[i] != '#',
        !occurs_at(r, 0, http_prefix()),
        !occurs_at(r, 0, https_prefix()),
    ensures
        slug_of(seq!['h', 't', 't', 'p', ':', '/', '/'] + r) == slug_of(r),
        slug_of(seq!['h', 't', 't', 'p', 's', ':', '/', '/'] + r) == slug_of(r),
{
    let p1: Seq<char> = seq!['h', 't', 't', 'p', ':', '/', '/'];
    let p2: Seq<char> = seq!['h', 't', 't', 'p', 's', ':', '/', '/'];
    let a = p1 + r;
    let b = p2 + r;
    assert forall|i: int| 0 <= i < a.len() implies a[i] != '#' by {
        if i >= 7 {
            assert(a[i] == r[i - 7]);
        }
    }
    assert forall|i: int| 0 <= i < b.len() implies b[i] != '#' by {
        if i >= 8 {
            assert(b[i] == r[i - 8]);
        }
    }
    lemma_after_last_hash_without_hash(a);
    lemma_after_last_hash_without_hash(b);
    lemma_after_last_hash_without_hash(r);
    assert(a.subrange(0, 7) =~= http_prefix());
    assert(a.skip(7) =~= r);
    assert(strip_scheme(a) == r);
    assert(b.subrange(0, 7)[4] == 's');
    assert(b.subrange(0, 7) != http_prefix());
    assert(b.subrange(0, 8) =~= https_prefix());
    assert(b.skip(8) =~= r);
    assert(strip_scheme(b) == r);
    assert(strip_scheme(r) == r);
}

/// Everything up to the last `#` of a route is ignored.
pub proof fn lemma_slug_ignores_before_hash(before: Seq<char>, after: Seq<char>)
    ensures
        slug_of(before.push('#') + after) == slug_of(after),
{
    lemma_after_last_hash_append(before, after);
}

/// The 32-byte BLAKE3 digest of `input`.
pub uninterp spec fn blake3_digest(input: Seq<u8>) -> Seq<u8>;

/// Trusted: calls `blake3::hash` and returns the bytes of the `Hash`. Its
/// contract names the digest, a function of the input alone, and states its
/// length, `blake3::OUT_LEN` (32).
#[verifier::external_body]
fn blake3_hash(input: &[u8]) -> (res: Vec<u8>)
    ensures
        res@ == blake3_digest(input@),
        res@.len() == 32,
{
    blake3::hash(input).as_bytes().to_vec()
}

/// The lowercase hexadecimal digit for `d < 16`.
pub open spec fn hex_digit(d: u8) -> char {
    if d < 10 {
        (48 + d) as char
    } else {
        (87 + d) as char
    }
}

/// Lowercase hexadecimal text of `bytes`, two digits per byte, high nibble first.
pub open spec fn hex_lower(bytes: Seq<u8>) -> Seq<char>
    decreases bytes.len(),
{
    if bytes.len() == 0 {
        Seq::empty()
    } else {
        let b = bytes.last();
        hex_lower(bytes.drop_last()).push(hex_digit(b / 16)).push(hex_digit(b % 16))
    }
}

fn hex_char(d: u8) -> (c: char)
    requires
        d < 16,
    ensures
        c == hex_digit(d),
{
    if d < 10 {
        (48 + d) as char
    } else {
        (87 + d) as char
    }
}

/// Stable hash of a screen tree, given the tree's JSON encoding: the lowercase
/// hex of its BLAKE3 digest.
pub fn tree_hash(encoded: &[u8]) -> (res: String)
    ensures
        res@ == hex_lower(blake3_digest(encoded@)),
        res@.len() == 64,
{
    let digest = blake3_hash(encoded);
    let mut s = String::new();
    let mut i: usize = 0;
    while i < digest.len()
        invariant
            i <= digest@.len(),
            s@ == hex_lower(digest@.take(i as int)),
            s@.len() == 2 * i,
        decreases digest.len() - i,
    {
        let b = digest[i];
        assert(digest@.take(i + 1).drop_last() == digest@.take(i as int));
        push_char(&mut s, hex_char(b / 16));
        push_char(&mut s, hex_char(b % 16));
        i = i + 1;
    }
    assert(digest@.take(digest@.len() as int) == digest@);
    s
}

/// Result of a capture. `M` is the type of screen sizes and `T` that of the
/// captured trees; the library only carries them.
pub struct Output<M, T> {
    pub generated_at: String,
    pub tool: String,
    pub source: String,
    pub font: String,
    pub groups: Vec<GroupOut<M, T>>,
}

pub struct GroupOut<M, T> {
    pub name: String,
    pub screens: Vec<Screen<M, T>>,
}

pub struct Screen<M, T> {
    /// Route actually reached after navigation.
    pub route: String,
    /// Route that was asked for.
    pub requested: String,
    pub redirected: bool,
    /// File name without extension.
    pub name: String,
    pub w: M,
    pub h: M,
    pub tree: T,
    /// `group:route` of an earlier screen with the same content, if any.
    pub same_as: Option<String>,
}

/// Number of screens over `groups`.
pub open spec fn total_of<M, T>(groups: Seq<GroupOut<M, T>>) -> int
    decreases groups.len(),
{
    if groups.len() == 0 {
        0
    } else {
        total_of(groups.drop_last()) + groups.last().screens@.len()
    }
}

/// Number of screens in `screens` that are not marked as the same as an earlier one.
pub open spec fn new_screens<M, T>(screens: Seq<Screen<M, T>>) -> int
    decreases screens.len(),
{
    if screens.len() == 0 {
        0
    } else {
        new_screens(screens.drop_last()) + if screens.last().same_as is None { 1int } else { 0int }
    }
}

/// Number of screens over `groups` that are not marked as the same as an earlier one.
pub open spec fn unique_of<M, T>(groups: Seq<GroupOut<M, T>>) -> int
    decreases groups.len(),
{
    if groups.len() == 0 {
        0
    } else {
        unique_of(groups.drop_last()) + new_screens(groups.last().screens@)
    }
}

proof fn lemma_new_screens_bounded<M, T>(screens: Seq<Screen<M, T>>)
    ensures
        0 <= new_screens(screens) <= screens.len(),
    decreases screens.len(),
{
    if screens.len() > 0 {
        lemma_new_screens_bounded(screens.drop_last());
    }
}

/// There are never more unique screens than screens.
pub proof fn lemma_unique_at_most_total<M, T>(groups: Seq<GroupOut<M, T>>)
    ensures
        0 <= unique_of(groups) <= total_of(groups),
    decreases groups.len(),
{
    if groups.len() > 0 {
        lemma_unique_at_most_total(groups.drop_last());
        lemma_new_screens_bounded(groups.last().screens@);
    }
}

proof fn lemma_total_nonneg<M, T>(groups: Seq<GroupOut<M, T>>)
    ensures
        0 <= total_of(groups),
    decreases groups.len(),
{
    if groups.len() > 0 {
        lemma_total_nonneg(groups.drop_last());
    }
}

proof fn lemma_total_prefix<M, T>(groups: Seq<GroupOut<M, T>>, i: int)
    requires
        0 <= i <= groups.len(),
    ensures
        0 <= total_of(groups.take(i)) <= total_of(groups),
    decreases groups.len(),
{
    if groups.len() > 0 {
        if i == groups.len() {
            assert(groups.take(i) == groups);
            lemma_total_nonneg(groups);
        } else {
            assert(groups.drop_last().take(i) == groups.take(i));
            lemma_total_prefix(groups.drop_last(), i);
        }
    }
}

proof fn lemma_unique_prefix<M, T>(groups: Seq<GroupOut<M, T>>, i: int)
    requires
        0 <= i <= groups.len(),
    ensures
        0 <= unique_of(groups.take(i)) <= unique_of(groups),
    decreases groups.len(),
{
    if groups.len() > 0 {
        if i == groups.len() {
            assert(groups.take(i) == groups);
            lemma_unique_at_most_total(groups);
        } else {
            assert(groups.drop_last().take(i) == groups.take(i));
            lemma_unique_prefix(groups.drop_last(), i);
            lemma_new_screens_bounded(groups.last().screens@);
        }
    }
}

fn count_new<M, T>(screens: &Vec<Screen<M, T>>) -> (n: usize)
    ensures
        n == new_screens(screens@),
{
    let mut n: usize = 0;
    let mut i: usize = 0;
    while i < screens.len()
        invariant
            i <= screens@.len(),
            n == new_screens(screens@.take(i as int)),
            n <= i,
        decreases screens.len() - i,
    {
        assert(screens@.take(i + 1).drop_last() == screens@.take(i as int));
        if screens[i].same_as.is_none() {
            n = n + 1;
        }
        i = i + 1;
    }
    assert(screens@.take(screens@.len() as int) == screens@);
    n
}

impl<M, T> Output<M, T> {
    /// Number of captured screens.
    pub fn total(&self) -> (n: usize)
        requires
            total_of(self.groups@) <= usize::MAX,
        ensures
            n == total_of(self.groups@),
    {
        let mut n: usize = 0;
        let mut i: usize = 0;
        while i < self.groups.len()
            invariant
                i <= self.groups@.len(),
                n == total_of(self.groups@.take(i as int)),
                total_of(self.groups@) <= usize::MAX,
            decreases self.groups.len() - i,
        {
            assert(self.groups@.take(i + 1).drop_last() == self.groups@.take(i as int));
            proof { lemma_total_prefix(self.groups@, i + 1); }
            n = n + self.groups[i].screens.len();
            i = i + 1;
        }
        assert(self.groups@.take(self.groups@.len() as int) == self.groups@);
        n
    }

    /// Number of screens that are not marked as the same as an earlier one.
    pub fn unique(&self) -> (n: usize)
        requires
            total_of(self.groups@) <= usize::MAX,
        ensures
            n == unique_of(self.groups@),
    {
        proof { lemma_unique_at_most_total(self.groups@); }
        let mut n: usize = 0;
        let mut i: usize = 0;
        while i < self.groups.len()
            invariant
                i <= self.groups@.len(),
                n == unique_of(self.groups@.take(i as int)),
                unique_of(self.groups@) <= usize::MAX,
            decreases self.groups.len() - i,
        {
            assert(self.groups@.take(i + 1).drop_last() == self.groups@.take(i as int));
            proof { lemma_unique_prefix(self.groups@, i + 1); }
            n = n + count_new(&self.groups[i].screens);
            i = i + 1;
        }
        assert(self.groups@.take(self.groups@.len() as int) == self.groups@);
        n
    }
}

} // verus!
