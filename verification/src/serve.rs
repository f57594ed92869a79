//! Local server for the Scripter import: which JSON files are listed and
//! which request gets which answer. Sockets and files belong to the application.

use vstd::prelude::*;
use crate::text::{append_range, chars_of, ends_with, has_suffix, opt_view};

verus! {

/// `a` comes before `b` or equals it, comparing characters by code point
/// (the order of `str`, whose byte order in UTF-8 is the code point order).
pub open spec fn text_le(a: Seq<char>, b: Seq<char>) -> bool
    decreases a.len(),
{
    if a.len() == 0 {
        true
    } else if b.len() == 0 {
        false
    } else if a[0] != b[0] {
        a[0] < b[0]
    } else {
        text_le(a.drop_first(), b.drop_first())
    }
}

proof fn lemma_text_le_total(a: Seq<char>, b: Seq<char>)
    ensures
        text_le(a, b) || text_le(b, a),
    decreases a.len(),
{
    if a.len() > 0 && b.len() > 0 && a[0] == b[0] {
        lemma_text_le_total(a.drop_first(), b.drop_first());
    }
}

proof fn lemma_text_le_trans(a: Seq<char>, b: Seq<char>, c: Seq<char>)
    requires
        text_le(a, b),
        text_le(b, c),
    ensures
        text_le(a, c),
    decreases a.len(),
{
    if a.len() > 0 && b.len() > 0 && c.len() > 0 && a[0] == b[0] && b[0] == c[0] {
        lemma_text_le_trans(a.drop_first(), b.drop_first(), c.drop_first());
    }
}

/// Compares two texts by `text_le`.
fn text_le_exec(a: &Vec<char>, b: &Vec<char>) -> (r: bool)
    ensures
        r == text_le(a@, b@),
{
    let mut i: usize = 0;
    assert(a@.skip(0) == a@ && b@.skip(0) == b@);
    while i < a.len() && i < b.len() && a[i] == b[i]
        invariant
            i <= a@.len(),
            i <= b@.len(),
            text_le(a@, b@) == text_le(a@.skip(i as int), b@.skip(i as int)),
        decreases a.len() - i,
    {
        assert(a@.skip(i as int).drop_first() == a@.skip(i + 1));
        assert(b@.skip(i as int).drop_first() == b@.skip(i + 1));
        i = i + 1;
    }
    if i == a.len() {
        true
    } else if i == b.len() {
        false
    } else {
        a[i] < b[i]
    }
}

pub open spec fn texts(v: Seq<String>) -> Seq<Seq<char>> {
    v.map_values(|s: String| s@)
}

/// In order by `text_le`.
pub open spec fn sorted_texts(s: Seq<Seq<char>>) -> bool {
    forall|i: int, j: int| 0 <= i < j < s.len() ==> text_le(#[trigger] s[i], #[trigger] s[j])
}

/// The names that end in `.json`, in their order.
pub open spec fn json_names(names: Seq<Seq<char>>) -> Seq<Seq<char>>
    decreases names.len(),
{
    if names.len() == 0 {
        Seq::empty()
    } else if has_suffix(names.last(), ".json"@) {
        json_names(names.drop_last()).push(names.last())
    } else {
        json_names(names.drop_last())
    }
}

/// The JSON files of a directory listing, sorted: the names ending in
/// `.json`, each as often as given, in order.
pub fn json_listing(names: &Vec<String>) -> (r: Vec<String>)
    ensures
        sorted_texts(texts(r@)),
        texts(r@).to_multiset() == json_names(texts(names@)).to_multiset(),
{
    broadcast use vstd::seq_lib::group_to_multiset_ensures;

    let mut r: Vec<String> = Vec::new();
    let mut rv: Vec<Vec<char>> = Vec::new();
    let mut i: usize = 0;
    while i < names.len()
        invariant
            i <= names@.len(),
            rv@.len() == r@.len(),
            forall|k: int| 0 <= k < r@.len() ==> #[trigger] rv@[k]@ == r@[k]@,
            sorted_texts(texts(r@)),
            texts(r@).to_multiset() == json_names(texts(names@).take(i as int)).to_multiset(),
        decreases names.len() - i,
    {
        assert(texts(names@).take(i + 1).drop_last() == texts(names@).take(i as int));
        assert(texts(names@).take(i + 1).last() == names@[i as int]@);
        if ends_with(names[i].as_str(), ".json") {
            let x = chars_of(names[i].as_str());
            let mut p: usize = 0;
            while p < rv.len() && text_le_exec(&rv[p], &x)
                invariant
                    p <= rv@.len(),
                    rv@.len() == r@.len(),
                    forall|k: int| 0 <= k < r@.len() ==> #[trigger] rv@[k]@ == r@[k]@,
                    forall|k: int| 0 <= k < p ==> text_le(#[trigger] r@[k]@, x@),
                    i < names@.len(),
                    x@ == names@[i as int]@,
                    sorted_texts(texts(r@)),
                    texts(r@).to_multiset() == json_names(texts(names@).take(i as int)).to_multiset(),
                decreases rv.len() - p,
            {
                p = p + 1;
            }
            let ghost old_m = texts(r@).to_multiset();
            let ghost old_t = texts(r@);
            let ghost old_r = r@;
            let ghost old_rv = rv@;
            proof {
                if p < r@.len() {
                    lemma_text_le_total(r@[p as int]@, x@);
                }
            }
            r.insert(p, names[i].clone());
            rv.insert(p, x);
            assert(texts(r@) =~= old_t.insert(p as int, x@));
            assert forall|a: int, b: int| 0 <= a < b < texts(r@).len() implies text_le(#[trigger] texts(r@)[a], #[trigger] texts(r@)[b]) by {
                let t = texts(r@);
                if b < p {
                    assert(t[a] == old_t[a] && t[b] == old_t[b]);
                } else if b == p {
                    assert(t[a] == old_t[a]);
                } else if a == p {
                    assert(t[b] == old_t[b - 1]);
                    if b - 1 > p {
                        lemma_text_le_trans(x@, old_t[p as int], old_t[b - 1]);
                    }
                } else if a < p {
                    assert(t[a] == old_t[a] && t[b] == old_t[b - 1]);
                } else {
                    assert(t[a] == old_t[a - 1] && t[b] == old_t[b - 1]);
                }
            }
            proof {
                vstd::seq_lib::to_multiset_insert(old_t, p as int, x@);
                vstd::seq_lib::to_multiset_build(json_names(texts(names@).take(i as int)), x@);
            }
            assert(texts(r@).to_multiset() == old_m.insert(x@));
            assert(json_names(texts(names@).take(i as int)).push(x@).to_multiset()
                == json_names(texts(names@).take(i as int)).to_multiset().insert(x@));
            assert(json_names(texts(names@).take(i + 1)) == json_names(texts(names@).take(i as int)).push(x@));
            assert forall|k: int| 0 <= k < r@.len() implies #[trigger] rv@[k]@ == r@[k]@ by {
                if k < p {
                    assert(rv@[k] == old_rv[k] && r@[k] == old_r[k]);
                } else if k > p {
                    assert(rv@[k] == old_rv[k - 1] && r@[k] == old_r[k - 1]);
                }
            }
        } else {
            assert(json_names(texts(names@).take(i + 1)) == json_names(texts(names@).take(i as int)));
        }
        i = i + 1;
    }
    assert(texts(names@).take(names@.len() as int) == texts(names@));
    r
}

/// The components of a Unix path that name something: its pieces between
/// `/`, without the empty ones and without `.`, in order.
pub open spec fn named_components(pieces: Seq<Seq<char>>) -> Seq<Seq<char>>
    decreases pieces.len(),
{
    if pieces.len() == 0 {
        Seq::empty()
    } else if pieces.last().len() == 0 || pieces.last() == seq!['.'] {
        named_components(pieces.drop_last())
    } else {
        named_components(pieces.drop_last()).push(pieces.last())
    }
}

/// The file name of a path as `std::path::Path::file_name` finds it on Unix
/// (Linux and macOS, where the program runs): the last component after
/// separators and `.` components are normalized away; none when that
/// component is `..` or when there is none (`/`, `.`, the empty path).
pub open spec fn path_file_name(path: Seq<char>) -> Option<Seq<char>> {
    let cs = named_components(crate::doctor::split_on(path, '/'));
    if cs.len() == 0 || cs.last() == seq!['.', '.'] {
        None
    } else {
        Some(cs.last())
    }
}

/// The file name of `path`, by the rules of `path_file_name`.
pub fn file_name_of(path: &str) -> (r: Option<String>)
    ensures
        opt_view(r) == path_file_name(path@),
{
    let cs = crate::text::chars_of(path);
    let parts = crate::doctor::split_chars(&cs, '/');
    let ghost ps = crate::doctor::rows(parts@);
    let mut last: Option<usize> = None;
    let mut i: usize = 0;
    while i < parts.len()
        invariant
            i <= parts@.len(),
            ps == crate::doctor::rows(parts@),
            match last {
                None => named_components(ps.take(i as int)).len() == 0,
                Some(j) => j < i && named_components(ps.take(i as int)).len() > 0
                    && named_components(ps.take(i as int)).last() == parts@[j as int]@,
            },
        decreases parts.len() - i,
    {
        assert(ps.take(i + 1).drop_last() == ps.take(i as int));
        assert(ps.take(i + 1).last() == parts@[i as int]@);
        let p = &parts[i];
        let dot = p.len() == 1 && p[0] == '.';
        assert(dot <==> p@ == seq!['.']) by {
            if p@ == seq!['.'] {
                assert(p@.len() == 1 && p@[0] == '.');
            }
            if dot {
                assert(p@ =~= seq!['.']);
            }
        }
        if p.len() != 0 && !dot {
            last = Some(i);
        }
        i = i + 1;
    }
    assert(ps.take(ps.len() as int) == ps);
    match last {
        None => None,
        Some(j) => {
            let p = &parts[j];
            let dots = p.len() == 2 && p[0] == '.' && p[1] == '.';
            assert(dots <==> p@ == seq!['.', '.']) by {
                if p@ == seq!['.', '.'] {
                    assert(p@.len() == 2 && p@[0] == '.' && p@[1] == '.');
                }
                if dots {
                    assert(p@ =~= seq!['.', '.']);
                }
            }
            if dots {
                None
            } else {
                Some(crate::text::string_of(p.as_slice()))
            }
        },
    }
}

proof fn lemma_split_pieces_free_of(s: Seq<char>, sep: char)
    ensures
        forall|k: int, i: int| 0 <= k < crate::doctor::split_on(s, sep).len() && 0 <= i < crate::doctor::split_on(s, sep)[k].len()
            ==> #[trigger] crate::doctor::split_on(s, sep)[k][i] != sep,
    decreases s.len(),
{
    if s.len() > 0 {
        let p = s.drop_last();
        lemma_split_pieces_free_of(p, sep);
        crate::doctor::lemma_split_on_nonempty(p, sep);
    }
}

proof fn lemma_named_components(pieces: Seq<Seq<char>>, sep: char)
    requires
        forall|k: int, i: int| 0 <= k < pieces.len() && 0 <= i < pieces[k].len() ==> #[trigger] pieces[k][i] != sep,
    ensures
        forall|k: int| 0 <= k < named_components(pieces).len() ==> {
            let c = #[trigger] named_components(pieces)[k];
            c.len() > 0 && c != seq!['.'] && forall|i: int| 0 <= i < c.len() ==> c[i] != sep
        },
    decreases pieces.len(),
{
    if pieces.len() > 0 {
        let p = pieces.drop_last();
        assert forall|k: int, i: int| 0 <= k < p.len() && 0 <= i < p[k].len() implies #[trigger] p[k][i] != sep by {
            assert(p[k] == pieces[k]);
        }
        lemma_named_components(p, sep);
        let l = pieces.last();
        assert forall|i: int| 0 <= i < l.len() implies l[i] != sep by {
            assert(l == pieces[pieces.len() - 1]);
        }
        let r = named_components(pieces);
        let q = named_components(p);
        if !(l.len() == 0 || l == seq!['.']) {
            assert forall|k: int| 0 <= k < r.len() implies {
                let c = #[trigger] r[k];
                c.len() > 0 && c != seq!['.'] && forall|i: int| 0 <= i < c.len() ==> c[i] != sep
            } by {
                if k < q.len() {
                    assert(r[k] == q[k]);
                } else {
                    assert(r[k] == l);
                }
            }
        }
    }
}

/// A file name is one component: not empty, not `.` or `..`, without `/`.
/// Joined to a directory it names an entry of that directory.
pub proof fn lemma_file_name_is_component(path: Seq<char>)
    ensures
        path_file_name(path) matches Some(n) ==> n.len() > 0 && n != seq!['.'] && n != seq!['.', '.']
            && forall|i: int| 0 <= i < n.len() ==> n[i] != '/',
{
    lemma_split_pieces_free_of(path, '/');
    lemma_named_components(crate::doctor::split_on(path, '/'), '/');
    let cs = named_components(crate::doctor::split_on(path, '/'));
    if cs.len() > 0 {
        let n = cs[cs.len() - 1];
        assert(n == cs.last());
    }
}

/// The path of a request: its URL before the first `?`, without leading `/`.
pub open spec fn request_path(url: Seq<char>) -> Seq<char> {
    crate::output::trim_leading(crate::assets::before_first(url, "?"@), '/')
}

/// The file a request asks for: the file name of its path, or nothing.
pub open spec fn requested_name(url: Seq<char>) -> Seq<char> {
    match path_file_name(request_path(url)) {
        Some(n) => n,
        None => Seq::empty(),
    }
}

/// How a request is answered.
pub enum Reply {
    /// CORS preflight: 204 with the CORS headers.
    Preflight,
    /// 404 with the CORS headers.
    NotFound,
    /// The JSON file of this name in the served directory, if it is a file.
    Json(String),
}

pub enum ReplyView {
    Preflight,
    NotFound,
    Json(Seq<char>),
}

pub open spec fn reply_view(r: Reply) -> ReplyView {
    match r {
        Reply::Preflight => ReplyView::Preflight,
        Reply::NotFound => ReplyView::NotFound,
        Reply::Json(n) => ReplyView::Json(n@),
    }
}

/// What a request gets: preflights are answered as such; only names ending in
/// `.json` are served.
pub open spec fn reply_of(is_options: bool, url: Seq<char>) -> ReplyView {
    if is_options {
        ReplyView::Preflight
    } else if has_suffix(requested_name(url), ".json"@) {
        ReplyView::Json(requested_name(url))
    } else {
        ReplyView::NotFound
    }
}

/// Decides on a request by its method (`OPTIONS` or not) and URL.
pub fn plan_request(is_options: bool, url: &str) -> (r: Reply)
    ensures
        reply_view(r) == reply_of(is_options, url@),
{
    if is_options {
        return Reply::Preflight;
    }
    let uv = chars_of(url);
    let q = chars_of("?");
    proof {
        reveal_strlit("?");
        crate::text::lemma_find_from(uv@, q@, 0);
    }
    let cut = match crate::text::find(&uv, &q, 0) {
        Some(i) => i,
        None => uv.len(),
    };
    assert(uv@.subrange(0, cut as int) == crate::assets::before_first(url@, "?"@));
    let mut lo: usize = 0;
    assert(uv@.subrange(0, cut as int) == uv@.subrange(lo as int, cut as int));
    while lo < cut && uv[lo] == '/'
        invariant
            lo <= cut <= uv@.len(),
            crate::output::trim_leading(uv@.subrange(0, cut as int), '/')
                == crate::output::trim_leading(uv@.subrange(lo as int, cut as int), '/'),
        decreases cut - lo,
    {
        assert(uv@.subrange(lo as int, cut as int).drop_first() == uv@.subrange(lo + 1, cut as int));
        lo = lo + 1;
    }
    let mut path = String::new();
    append_range(&mut path, &uv, lo, cut);
    assert(path@ == request_path(url@));
    let name = match file_name_of(path.as_str()) {
        Some(n) => n,
        None => String::new(),
    };
    if ends_with(name.as_str(), ".json") {
        Reply::Json(name)
    } else {
        Reply::NotFound
    }
}

/// A served file is named by one component ending in `.json`: not empty,
/// not `.` or `..`, without `/`. Whatever the URL, `dir.join(name)` is an
/// entry of the served directory itself.
pub proof fn lemma_only_json_served(is_options: bool, url: Seq<char>)
    ensures
        reply_of(is_options, url) matches ReplyView::Json(n) ==> has_suffix(n, ".json"@) && n.len() > 0
            && n != seq!['.'] && n != seq!['.', '.'] && forall|i: int| 0 <= i < n.len() ==> n[i] != '/',
{
    reveal_strlit(".json");
    lemma_file_name_is_component(request_path(url));
}

/// Address the server listens on.
pub fn bind_address(port: u16) -> (a: String)
    ensures
        a@ == "127.0.0.1:"@ + crate::capture::decimal(port as nat),
{
    let mut a = String::from_str("127.0.0.1:");
    a.append(crate::capture::decimal_string(port as u64).as_str());
    a
}

/// Address of a served file.
pub fn file_url(port: u16, name: &str) -> (u: String)
    ensures
        u@ == "http://localhost:"@ + crate::capture::decimal(port as nat) + "/"@ + name@,
{
    let mut u = String::from_str("http://localhost:");
    u.append(crate::capture::decimal_string(port as u64).as_str());
    u.append("/");
    u.append(name);
    u
}

} // verus!
