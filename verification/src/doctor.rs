//! Environment check: Chrome and the capture font. The probes themselves
//! (the file system, `fc-list`) belong to the application; the library reads
//! what they found.

use vstd::prelude::*;
use crate::text::{char_is_whitespace, chars_of, is_whitespace, push_char};

verus! {

/// Outcome of the environment check.
pub struct Report {
    /// Path of Chrome, or why none was found.
    pub chrome: Result<String, String>,
    /// Where the font was found, or why it was not.
    pub font: Result<String, String>,
}

impl Report {
    /// Both Chrome and the font are there.
    pub fn ok(&self) -> (b: bool)
        ensures
            b == (self.chrome is Ok && self.font is Ok),
    {
        self.chrome.is_ok() && self.font.is_ok()
    }
}

/// The report of the two probes.
pub fn run(chrome: Result<String, String>, font: Result<String, String>) -> (r: Report)
    ensures
        r.chrome == chrome,
        r.font == font,
{
    Report { chrome, font }
}

/// The pieces of `s` between occurrences of `sep` (`str::split` on a char).
pub open spec fn split_on(s: Seq<char>, sep: char) -> Seq<Seq<char>>
    decreases s.len(),
{
    if s.len() == 0 {
        seq![Seq::empty()]
    } else {
        let parts = split_on(s.drop_last(), sep);
        if s.last() == sep {
            parts.push(Seq::empty())
        } else {
            parts.update(parts.len() - 1, parts.last().push(s.last()))
        }
    }
}

pub proof fn lemma_split_on_nonempty(s: Seq<char>, sep: char)
    ensures
        split_on(s, sep).len() > 0,
    decreases s.len(),
{
    if s.len() > 0 {
        lemma_split_on_nonempty(s.drop_last(), sep);
    }
}

/// The lines of a text: its pieces between `\n`, without the empty piece
/// after a final `\n`. (A `\r` before `\n` stays at the end of its line;
/// every use below trims it.)
pub open spec fn lines_of(text: Seq<char>) -> Seq<Seq<char>> {
    let parts = split_on(text, '\n');
    if parts.last().len() == 0 {
        parts.drop_last()
    } else {
        parts
    }
}

/// `s` without leading and trailing whitespace (`str::trim`).
pub open spec fn trim_ws(s: Seq<char>) -> Seq<char>
    decreases s.len(),
{
    if s.len() > 0 && char_is_whitespace(s[0]) {
        trim_ws(s.drop_first())
    } else if s.len() > 0 && char_is_whitespace(s.last()) {
        trim_ws(s.drop_last())
    } else {
        s
    }
}

pub open spec fn ascii_lower(c: char) -> char {
    if 'A' <= c && c <= 'Z' {
        ((c as u32) + 32) as char
    } else {
        c
    }
}

/// `a` and `b` are equal up to ASCII case (`str::eq_ignore_ascii_case`).
pub open spec fn eq_ascii_nocase(a: Seq<char>, b: Seq<char>) -> bool {
    a.len() == b.len() && forall|i: int| 0 <= i < a.len() ==> ascii_lower(#[trigger] a[i]) == ascii_lower(b[i])
}

/// One of the comma-separated families of `line` is `font`.
pub open spec fn line_names_font(line: Seq<char>, font: Seq<char>) -> bool {
    exists|i: int| 0 <= i < split_on(line, ',').len() && eq_ascii_nocase(trim_ws(#[trigger] split_on(line, ',')[i]), font)
}

/// The first line of an `fc-list : family` listing that names `font`.
pub open spec fn first_font_line(lines: Seq<Seq<char>>, font: Seq<char>) -> Option<Seq<char>>
    decreases lines.len(),
{
    if lines.len() == 0 {
        None
    } else if line_names_font(lines[0], font) {
        Some(lines[0])
    } else {
        first_font_line(lines.drop_first(), font)
    }
}

proof fn lemma_first_font_line(lines: Seq<Seq<char>>, font: Seq<char>, k: int)
    requires
        0 <= k <= lines.len(),
        forall|j: int| 0 <= j < k ==> !line_names_font(#[trigger] lines[j], font),
    ensures
        k < lines.len() && line_names_font(lines[k], font) ==> first_font_line(lines, font) == Some(lines[k]),
        k == lines.len() ==> first_font_line(lines, font) is None,
    decreases k,
{
    if k > 0 {
        let rest = lines.drop_first();
        assert forall|j: int| 0 <= j < k - 1 implies !line_names_font(#[trigger] rest[j], font) by {
            assert(rest[j] == lines[j + 1]);
        }
        lemma_first_font_line(rest, font, k - 1);
        assert(!line_names_font(lines[0], font));
        if k < lines.len() {
            assert(rest[k - 1] == lines[k]);
        }
    }
}

pub open spec fn rows(v: Seq<Vec<char>>) -> Seq<Seq<char>> {
    v.map_values(|x: Vec<char>| x@)
}

/// Splits `v` at every `sep`.
pub fn split_chars(v: &Vec<char>, sep: char) -> (parts: Vec<Vec<char>>)
    ensures
        rows(parts@) == split_on(v@, sep),
{
    let mut parts: Vec<Vec<char>> = Vec::new();
    parts.push(Vec::new());
    assert(rows(parts@) =~= split_on(v@.take(0), sep));
    let mut i: usize = 0;
    while i < v.len()
        invariant
            i <= v@.len(),
            parts@.len() > 0,
            rows(parts@) == split_on(v@.take(i as int), sep),
        decreases v.len() - i,
    {
        let c = v[i];
        assert(v@.take(i + 1).drop_last() == v@.take(i as int));
        if c == sep {
            parts.push(Vec::new());
            assert(rows(parts@) =~= split_on(v@.take(i + 1), sep));
        } else {
            let ghost before = rows(parts@);
            let mut cur = parts.pop().unwrap();
            cur.push(c);
            parts.push(cur);
            assert(rows(parts@) =~= before.update(before.len() - 1, before.last().push(c)));
        }
        i = i + 1;
    }
    assert(v@.take(v@.len() as int) == v@);
    parts
}

/// The bounds of `v` without leading and trailing whitespace.
fn trim_bounds(v: &Vec<char>) -> (r: (usize, usize))
    ensures
        r.0 <= r.1 <= v@.len(),
        v@.subrange(r.0 as int, r.1 as int) == trim_ws(v@),
{
    let mut lo: usize = 0;
    let hi0 = v.len();
    assert(v@.subrange(0, hi0 as int) == v@);
    while lo < hi0 && is_whitespace(v[lo])
        invariant
            lo <= hi0 == v@.len(),
            trim_ws(v@) == trim_ws(v@.subrange(lo as int, hi0 as int)),
        decreases hi0 - lo,
    {
        assert(v@.subrange(lo as int, hi0 as int).drop_first() == v@.subrange(lo + 1, hi0 as int));
        lo = lo + 1;
    }
    let mut hi = hi0;
    while hi > lo && is_whitespace(v[hi - 1])
        invariant
            lo <= hi <= v@.len(),
            lo == hi || !char_is_whitespace(v@[lo as int]),
            trim_ws(v@) == trim_ws(v@.subrange(lo as int, hi as int)),
        decreases hi,
    {
        assert(v@.subrange(lo as int, hi as int).drop_last() == v@.subrange(lo as int, hi - 1));
        assert(v@.subrange(lo as int, hi as int)[0] == v@[lo as int]);
        hi = hi - 1;
    }
    if lo < hi {
        assert(v@.subrange(lo as int, hi as int)[0] == v@[lo as int]);
    }
    (lo, hi)
}

fn ascii_lower_exec(c: char) -> (r: char)
    ensures
        r == ascii_lower(c),
{
    if 'A' <= c && c <= 'Z' {
        ((c as u32 + 32) as u8) as char
    } else {
        c
    }
}

/// Compares `v[lo..hi]` with `w` up to ASCII case.
fn range_eq_nocase(v: &Vec<char>, lo: usize, hi: usize, w: &Vec<char>) -> (r: bool)
    requires
        lo <= hi <= v@.len(),
    ensures
        r == eq_ascii_nocase(v@.subrange(lo as int, hi as int), w@),
{
    if hi - lo != w.len() {
        return false;
    }
    let mut k: usize = 0;
    while k < w.len()
        invariant
            hi - lo == w@.len(),
            lo <= hi <= v@.len(),
            k <= w@.len(),
            forall|j: int| 0 <= j < k ==> ascii_lower(#[trigger] v@.subrange(lo as int, hi as int)[j]) == ascii_lower(w@[j]),
        decreases w.len() - k,
    {
        if ascii_lower_exec(v[lo + k]) != ascii_lower_exec(w[k]) {
            assert(v@.subrange(lo as int, hi as int)[k as int] == v@[lo + k]);
            return false;
        }
        assert(v@.subrange(lo as int, hi as int)[k as int] == v@[lo + k]);
        k = k + 1;
    }
    true
}

fn names_font(line: &Vec<char>, font: &Vec<char>) -> (r: bool)
    ensures
        r == line_names_font(line@, font@),
{
    let fields = split_chars(line, ',');
    let mut i: usize = 0;
    while i < fields.len()
        invariant
            i <= fields@.len(),
            rows(fields@) == split_on(line@, ','),
            forall|j: int| 0 <= j < i ==> !eq_ascii_nocase(trim_ws(#[trigger] split_on(line@, ',')[j]), font@),
        decreases fields.len() - i,
    {
        let (lo, hi) = trim_bounds(&fields[i]);
        assert(rows(fields@)[i as int] == fields@[i as int]@);
        if range_eq_nocase(&fields[i], lo, hi, font) {
            return true;
        }
        i = i + 1;
    }
    false
}

pub open spec fn font_missing_text(font: Seq<char>) -> Seq<char> {
    "шрифт «"@ + font + "» не найден (fc-list). Положите TTF в ~/.local/share/fonts/ и выполните fc-cache -f"@
}

/// What `fc_list_font` answers: the first line naming the font, trimmed, or
/// why there is none.
pub open spec fn fc_list_font_of(listing: Seq<char>, font: Seq<char>) -> Result<Seq<char>, Seq<char>> {
    match first_font_line(lines_of(listing), font) {
        Some(line) => Ok(trim_ws(line)),
        None => Err(font_missing_text(font)),
    }
}

pub open spec fn result_view(r: Result<String, String>) -> Result<Seq<char>, Seq<char>> {
    match r {
        Ok(s) => Ok(s@),
        Err(e) => Err(e@),
    }
}

/// Looks for `font` in the output of `fc-list : family`: a line one of whose
/// comma-separated families equals it up to ASCII case.
pub fn fc_list_font(listing: &str, font: &str) -> (r: Result<String, String>)
    ensures
        result_view(r) == fc_list_font_of(listing@, font@),
{
    let text = chars_of(listing);
    let fv = chars_of(font);
    let mut parts = split_chars(&text, '\n');
    proof {
        lemma_split_on_nonempty(text@, '\n');
    }
    let last = parts.len() - 1;
    if parts[last].len() == 0 {
        let ghost before = rows(parts@);
        parts.pop();
        assert(rows(parts@) =~= before.drop_last());
    }
    let ghost lines = lines_of(listing@);
    assert(rows(parts@) == lines);
    let mut k: usize = 0;
    while k < parts.len()
        invariant
            k <= parts@.len(),
            rows(parts@) == lines,
            lines == lines_of(listing@),
            forall|j: int| 0 <= j < k ==> !line_names_font(#[trigger] lines[j], font@),
            fv@ == font@,
        decreases parts.len() - k,
    {
        assert(rows(parts@)[k as int] == parts@[k as int]@);
        if names_font(&parts[k], &fv) {
            assert(lines[k as int] == parts@[k as int]@);
            assert(line_names_font(lines[k as int], font@));
            assert(k < lines.len());
            proof {
                lemma_first_font_line(lines, font@, k as int);
            }
            assert(first_font_line(lines, font@) == Some(lines[k as int]));
            let (lo, hi) = trim_bounds(&parts[k]);
            let mut out = String::new();
            crate::text::append_range(&mut out, &parts[k], lo, hi);
            assert(out@ == trim_ws(lines[k as int]));
            assert(lines == lines_of(listing@));
            assert(fc_list_font_of(listing@, font@) == Ok::<Seq<char>, Seq<char>>(out@));
            return Ok(out);
        }
        k = k + 1;
    }
    proof {
        lemma_first_font_line(lines, font@, k as int);
    }
    let mut msg = String::from_str("шрифт «");
    msg.append(font);
    msg.append("» не найден (fc-list). Положите TTF в ~/.local/share/fonts/ и выполните fc-cache -f");
    Err(msg)
}

/// Why the font could not be checked on Linux.
pub const FC_LIST_MISSING: &'static str = "fc-list недоступен, проверить шрифт не удалось (установите fontconfig)";

/// The text that `str::to_lowercase` makes of `s` (Unicode lowercase mapping).
pub uninterp spec fn unicode_lowercase(s: Seq<char>) -> Seq<char>;

/// Trusted: calls `str::to_lowercase`; its contract names the result, a
/// function of the text alone.
#[verifier::external_body]
fn lowercase(s: &str) -> (r: String)
    ensures
        r@ == unicode_lowercase(s@),
{
    s.to_lowercase()
}

/// How a font or file name is compared on macOS: lowercase, without spaces.
pub open spec fn squeezed(s: Seq<char>) -> Seq<char> {
    crate::text::replace_all(unicode_lowercase(s), " "@, ""@)
}

/// A font file in a macOS font directory is taken for `font` when its
/// squeezed name starts with the squeezed font name and ends in `.ttf`,
/// `.otf` or `.ttc`.
pub open spec fn font_file_matches_of(file_name: Seq<char>, font: Seq<char>) -> bool {
    let n = squeezed(file_name);
    crate::text::has_prefix(n, squeezed(font)) && (crate::text::has_suffix(n, ".ttf"@)
        || crate::text::has_suffix(n, ".otf"@) || crate::text::has_suffix(n, ".ttc"@))
}

/// A font file is taken for a font exactly when its name, lowercased and
/// without spaces, starts with the font name treated the same way and ends in
/// one of the extensions `.ttf`, `.otf` and `.ttc`.
pub proof fn lemma_font_file_extensions(file_name: Seq<char>, font: Seq<char>)
    ensures
        font_file_matches_of(file_name, font) <==> {
            let n = squeezed(file_name);
            &&& crate::text::has_prefix(n, squeezed(font))
            &&& n.len() >= 4
            &&& seq![seq!['.', 't', 't', 'f'], seq!['.', 'o', 't', 'f'], seq!['.', 't', 't', 'c']].contains(n.skip(n.len() - 4))
        },
{
    reveal_strlit(".ttf");
    reveal_strlit(".otf");
    reveal_strlit(".ttc");
    let n = squeezed(file_name);
    let exts = seq![seq!['.', 't', 't', 'f'], seq!['.', 'o', 't', 'f'], seq!['.', 't', 't', 'c']];
    if n.len() >= 4 {
        let tail = n.skip(n.len() - 4);
        assert(tail =~= n.subrange(n.len() - 4, n.len() as int));
        assert(".ttf"@ =~= exts[0]);
        assert(".otf"@ =~= exts[1]);
        assert(".ttc"@ =~= exts[2]);
        if exts.contains(tail) {
            let k = choose|k: int| 0 <= k < exts.len() && exts[k] == tail;
            assert(k == 0 || k == 1 || k == 2);
        }
        if tail == exts[0] || tail == exts[1] || tail == exts[2] {
            if tail == exts[0] {
                assert(exts[0] == tail);
            } else if tail == exts[1] {
                assert(exts[1] == tail);
            } else {
                assert(exts[2] == tail);
            }
        }
    }
}

/// The font file found is the path of the first entry whose name is taken
/// for the font; none is found when no name is.
pub proof fn lemma_first_font_file_is_first_match(entries: Seq<(Seq<char>, Seq<char>)>, font: Seq<char>, k: int)
    requires
        0 <= k <= entries.len(),
        forall|j: int| 0 <= j < k ==> !font_file_matches_of(#[trigger] entries[j].0, font),
    ensures
        k < entries.len() && font_file_matches_of(entries[k].0, font) ==> first_font_file_of(entries, font) == Some(entries[k].1),
        k == entries.len() ==> first_font_file_of(entries, font) is None,
{
    lemma_first_font_file(entries, font, k);
}

pub fn font_file_matches(file_name: &str, font: &str) -> (b: bool)
    ensures
        b == font_file_matches_of(file_name@, font@),
{
    proof {
        reveal_strlit(" ");
    }
    let n = crate::text::replace(lowercase(file_name).as_str(), " ", "");
    let needle = crate::text::replace(lowercase(font).as_str(), " ", "");
    crate::text::starts_with(n.as_str(), needle.as_str()) && (crate::text::ends_with(n.as_str(), ".ttf")
        || crate::text::ends_with(n.as_str(), ".otf") || crate::text::ends_with(n.as_str(), ".ttc"))
}

pub open spec fn mac_font_missing_text(font: Seq<char>) -> Seq<char> {
    "шрифт «"@ + font + "» не найден в ~/Library/Fonts и /Library/Fonts. Установите его через Font Book"@
}

/// Why the font was not found on macOS.
pub fn mac_font_missing(font: &str) -> (m: String)
    ensures
        m@ == mac_font_missing_text(font@),
{
    crate::text::concat3("шрифт «", font, "» не найден в ~/Library/Fonts и /Library/Fonts. Установите его через Font Book")
}

pub open spec fn entries_view(v: Seq<(String, String)>) -> Seq<(Seq<char>, Seq<char>)> {
    v.map_values(|e: (String, String)| (e.0@, e.1@))
}

/// The path of the first entry whose file name matches `font`.
pub open spec fn first_font_file_of(entries: Seq<(Seq<char>, Seq<char>)>, font: Seq<char>) -> Option<Seq<char>>
    decreases entries.len(),
{
    if entries.len() == 0 {
        None
    } else if font_file_matches_of(entries[0].0, font) {
        Some(entries[0].1)
    } else {
        first_font_file_of(entries.drop_first(), font)
    }
}

proof fn lemma_first_font_file(entries: Seq<(Seq<char>, Seq<char>)>, font: Seq<char>, k: int)
    requires
        0 <= k <= entries.len(),
        forall|j: int| 0 <= j < k ==> !font_file_matches_of(#[trigger] entries[j].0, font),
    ensures
        k < entries.len() && font_file_matches_of(entries[k].0, font) ==> first_font_file_of(entries, font) == Some(entries[k].1),
        k == entries.len() ==> first_font_file_of(entries, font) is None,
    decreases k,
{
    if k > 0 {
        let rest = entries.drop_first();
        assert forall|j: int| 0 <= j < k - 1 implies !font_file_matches_of(#[trigger] rest[j].0, font) by {
            assert(rest[j] == entries[j + 1]);
        }
        lemma_first_font_file(rest, font, k - 1);
        assert(!font_file_matches_of(entries[0].0, font));
        if k < entries.len() {
            assert(rest[k - 1] == entries[k]);
        }
    }
}

/// The macOS search: over the entries (file name, path) of the font
/// directories, in order, the first file taken for `font`, or why there is none.
pub fn first_font_file(entries: &Vec<(String, String)>, font: &str) -> (r: Result<String, String>)
    ensures
        result_view(r) == match first_font_file_of(entries_view(entries@), font@) {
            Some(p) => Ok::<Seq<char>, Seq<char>>(p),
            None => Err(mac_font_missing_text(font@)),
        },
{
    let ghost ev = entries_view(entries@);
    let mut k: usize = 0;
    while k < entries.len()
        invariant
            k <= entries@.len(),
            ev == entries_view(entries@),
            forall|j: int| 0 <= j < k ==> !font_file_matches_of(#[trigger] ev[j].0, font@),
        decreases entries.len() - k,
    {
        assert(ev[k as int] == (entries@[k as int].0@, entries@[k as int].1@));
        if font_file_matches(entries[k].0.as_str(), font) {
            proof {
                lemma_first_font_file(ev, font@, k as int);
            }
            return Ok(entries[k].1.clone());
        }
        k = k + 1;
    }
    proof {
        lemma_first_font_file(ev, font@, k as int);
    }
    Err(mac_font_missing(font))
}

pub open spec fn explicit_chrome_of(path: Seq<char>, exists: bool) -> Result<Seq<char>, Seq<char>> {
    if exists {
        Ok(path)
    } else {
        Err("указанный Chrome не найден: "@ + path)
    }
}

/// A Chrome path given by the user is taken when it exists.
pub fn explicit_chrome(path: String, exists: bool) -> (r: Result<String, String>)
    ensures
        result_view(r) == explicit_chrome_of(path@, exists),
{
    if exists {
        Ok(path)
    } else {
        let mut m = String::from_str("указанный Chrome не найден: ");
        m.append(path.as_str());
        Err(m)
    }
}

/// Why no Chrome was found by searching, with the ways to name one.
pub fn chrome_not_found(reason: &str) -> (m: String)
    ensures
        m@ == reason@ + ". Укажите путь флагом --chrome, переменной CHROME или в конфиге `chrome = \"...\"`"@,
{
    let mut m = String::from_str(reason);
    m.append(". Укажите путь флагом --chrome, переменной CHROME или в конфиге `chrome = \"...\"`");
    m
}

} // verus!
