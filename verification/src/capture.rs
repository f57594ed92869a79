//! Decisions of a capture: which groups and routes are walked, which screens
//! are kept or marked as repeating an earlier one, and the scripts that drive
//! the page. The browser itself is driven by the application.

use vstd::prelude::*;
use crate::config::{Config, Group, GroupView, Navigation, effective_count, effective_group};
use crate::output::{GroupOut, Output, Screen, hex_lower, new_screens, slug, slug_of, tree_hash, unique_of};
use crate::output::blake3_digest;
use crate::text::{clone_strings, contains_str, ends_even, good_piece, lemma_append_good_piece, quotes_escaped, same_text, trailing_backslashes};
use crate::output::hex_digit;

verus! {

/// What the user narrowed a capture to.
pub struct CaptureOptions {
    /// Only these groups, by name (empty: all).
    pub only_groups: Vec<String>,
    /// Only these routes (empty: all of the configuration).
    pub only_routes: Vec<String>,
    /// Name of the output JSON without extension.
    pub out_name: String,
    pub png: bool,
    pub chrome: Option<String>,
}

/// Why a capture cannot start.
#[derive(Debug, Clone, Copy, PartialEq, Eq, Structural)]
pub enum CaptureError {
    /// `--group` was given and no group has one of the names.
    NoGroupMatched,
}

impl CaptureError {
    /// Message shown to the user.
    pub fn message(&self) -> (m: String)
        ensures
            m@ == "ни одна группа не совпала с --group"@,
    {
        String::from_str("ни одна группа не совпала с --group")
    }
}

/// The groups that a capture walks, in order.
pub open spec fn effective_groups_of(cfg: Config) -> Seq<GroupView> {
    Seq::new(effective_count(cfg) as nat, |i: int| effective_group(cfg, i))
}

/// The groups of `gs` whose name is in `only`, in order.
pub open spec fn groups_named(gs: Seq<GroupView>, only: Seq<Seq<char>>) -> Seq<GroupView>
    decreases gs.len(),
{
    if gs.len() == 0 {
        Seq::empty()
    } else if only.contains(gs.last().name) {
        groups_named(gs.drop_last(), only).push(gs.last())
    } else {
        groups_named(gs.drop_last(), only)
    }
}

/// The groups that a capture with the filter `only` walks.
pub open spec fn selected_groups(cfg: Config, only: Seq<Seq<char>>) -> Seq<GroupView> {
    if only.len() == 0 {
        effective_groups_of(cfg)
    } else {
        groups_named(effective_groups_of(cfg), only)
    }
}

pub open spec fn group_views(v: Seq<Group>) -> Seq<GroupView> {
    v.map_values(|g: Group| g@)
}

/// The effective groups of `cfg`, narrowed to the names in `only` when it is
/// not empty; refused when that leaves none.
pub fn select_groups(cfg: &Config, only: &Vec<String>) -> (r: Result<Vec<Group>, CaptureError>)
    ensures
        match r {
            Ok(gs) => group_views(gs@) == selected_groups(*cfg, only.deep_view())
                && gs@.len() > 0,
            Err(_) => only@.len() > 0 && selected_groups(*cfg, only.deep_view()).len() == 0,
        },
{
    let mut groups = cfg.effective_groups();
    let ghost eff = effective_groups_of(*cfg);
    assert(group_views(groups@) =~= eff);
    if only.len() == 0 {
        return Ok(groups);
    }
    let mut kept: Vec<Group> = Vec::new();
    let mut i: usize = 0;
    let n = groups.len();
    // Walk the groups from the first, moving the kept ones.
    while i < n
        invariant
            n == eff.len(),
            i <= n,
            groups@.len() == n - i,
            forall|k: int| 0 <= k < n - i ==> #[trigger] groups@[k]@ == eff[i + k],
            group_views(kept@) == groups_named(eff.take(i as int), only.deep_view()),
        decreases n - i,
    {
        let g = groups.remove(0);
        assert(g@ == eff[i as int]);
        assert(eff.take(i + 1).drop_last() == eff.take(i as int));
        if contains_str(only, g.name.as_str()) {
            kept.push(g);
            assert(group_views(kept@) =~= groups_named(eff.take(i + 1), only.deep_view()));
        }
        i = i + 1;
    }
    assert(eff.take(n as int) == eff);
    if kept.len() == 0 {
        Err(CaptureError::NoGroupMatched)
    } else {
        Ok(kept)
    }
}

/// The items of `items` that are in `only`, in order; all of them when `only` is empty.
pub open spec fn listed(items: Seq<Seq<char>>, only: Seq<Seq<char>>) -> Seq<Seq<char>>
    decreases items.len(),
{
    if items.len() == 0 {
        Seq::empty()
    } else if only.len() == 0 || only.contains(items.last()) {
        listed(items.drop_last(), only).push(items.last())
    } else {
        listed(items.drop_last(), only)
    }
}

/// A route filter keeps exactly the routes named in it, in the order of the
/// group; an empty filter keeps every route.
pub proof fn lemma_listed_is_filter(items: Seq<Seq<char>>, only: Seq<Seq<char>>)
    ensures
        only.len() == 0 ==> listed(items, only) == items,
        only.len() > 0 ==> listed(items, only) == items.filter(|x: Seq<char>| only.contains(x)),
    decreases items.len(),
{
    reveal(Seq::filter);
    if items.len() > 0 {
        lemma_listed_is_filter(items.drop_last(), only);
        assert(items.drop_last().push(items.last()) == items);
    } else {
        assert(items =~= Seq::<Seq<char>>::empty());
    }
}

/// A group filter keeps exactly the groups named in it, in order.
pub proof fn lemma_groups_named_is_filter(gs: Seq<GroupView>, only: Seq<Seq<char>>)
    ensures
        groups_named(gs, only) == gs.filter(|g: GroupView| only.contains(g.name)),
    decreases gs.len(),
{
    reveal(Seq::filter);
    if gs.len() > 0 {
        lemma_groups_named_is_filter(gs.drop_last(), only);
    }
}

/// The routes of a group that a capture walks: those in `only`, or all when
/// `only` is empty.
pub fn select_routes(routes: &Vec<String>, only: &Vec<String>) -> (r: Vec<String>)
    ensures
        r.deep_view() == listed(routes.deep_view(), only.deep_view()),
{
    let mut r: Vec<String> = Vec::new();
    let mut i: usize = 0;
    while i < routes.len()
        invariant
            i <= routes@.len(),
            r.deep_view() == listed(routes.deep_view().take(i as int), only.deep_view()),
        decreases routes.len() - i,
    {
        assert(routes.deep_view().take(i + 1).drop_last() == routes.deep_view().take(i as int));
        if only.len() == 0 || contains_str(only, routes[i].as_str()) {
            r.push(routes[i].clone());
            assert(r.deep_view() =~= listed(routes.deep_view().take(i + 1), only.deep_view()));
        }
        i = i + 1;
    }
    assert(routes.deep_view().take(routes@.len() as int) == routes.deep_view());
    r
}

/// A map from text to text, kept as the list of its entries.
pub struct Seen {
    entries: Vec<(String, String)>,
}

pub open spec fn entries_map(e: Seq<(String, String)>) -> Map<Seq<char>, Seq<char>>
    decreases e.len(),
{
    if e.len() == 0 {
        Map::empty()
    } else {
        entries_map(e.drop_last()).insert(e.last().0@, e.last().1@)
    }
}

proof fn lemma_entries_map(e: Seq<(String, String)>)
    requires
        forall|i: int, j: int| 0 <= i < j < e.len() ==> #[trigger] e[i].0@ != #[trigger] e[j].0@,
    ensures
        forall|k: Seq<char>| #[trigger] entries_map(e).contains_key(k) <==> exists|i: int| 0 <= i < e.len() && #[trigger] e[i].0@ == k,
        forall|i: int| 0 <= i < e.len() ==> #[trigger] entries_map(e)[e[i].0@] == e[i].1@,
    decreases e.len(),
{
    if e.len() > 0 {
        let p = e.drop_last();
        assert forall|i: int, j: int| 0 <= i < j < p.len() implies #[trigger] p[i].0@ != #[trigger] p[j].0@ by {
            assert(p[i] == e[i] && p[j] == e[j]);
        }
        lemma_entries_map(p);
        assert forall|k: Seq<char>| #[trigger] entries_map(e).contains_key(k) implies exists|i: int| 0 <= i < e.len() && #[trigger] e[i].0@ == k by {
            if k != e.last().0@ {
                assert(entries_map(p).contains_key(k));
                let i = choose|i: int| 0 <= i < p.len() && #[trigger] p[i].0@ == k;
                assert(e[i] == p[i]);
            }
        }
        assert forall|k: Seq<char>| (exists|i: int| 0 <= i < e.len() && #[trigger] e[i].0@ == k) implies #[trigger] entries_map(e).contains_key(k) by {
            let i = choose|i: int| 0 <= i < e.len() && #[trigger] e[i].0@ == k;
            assert(entries_map(e) == entries_map(p).insert(e.last().0@, e.last().1@));
            if i < p.len() {
                assert(p[i] == e[i]);
                assert(entries_map(p).contains_key(k));
            } else {
                assert(e[i] == e.last());
            }
        }
        assert forall|i: int| 0 <= i < e.len() implies #[trigger] entries_map(e)[e[i].0@] == e[i].1@ by {
            assert(entries_map(e) == entries_map(p).insert(e.last().0@, e.last().1@));
            if i < p.len() {
                assert(p[i] == e[i]);
                assert(e[i].0@ != e.last().0@);
                assert(entries_map(p)[p[i].0@] == p[i].1@);
            } else {
                assert(e[i] == e.last());
            }
        }
    }
}

impl View for Seen {
    type V = Map<Seq<char>, Seq<char>>;

    closed spec fn view(&self) -> Map<Seq<char>, Seq<char>> {
        entries_map(self.entries@)
    }
}

impl Seen {
    /// No key occurs twice among the entries.
    pub closed spec fn wf(&self) -> bool {
        forall|i: int, j: int| 0 <= i < j < self.entries@.len() ==> #[trigger] self.entries@[i].0@ != #[trigger] self.entries@[j].0@
    }

    pub fn new() -> (s: Self)
        ensures
            s.wf(),
            s@ == Map::<Seq<char>, Seq<char>>::empty(),
    {
        Seen { entries: Vec::new() }
    }

    /// The value recorded for `key`.
    pub fn get(&self, key: &str) -> (r: Option<String>)
        requires
            self.wf(),
        ensures
            match r {
                Some(v) => self@.contains_key(key@) && self@[key@] == v@,
                None => !self@.contains_key(key@),
            },
    {
        proof {
            lemma_entries_map(self.entries@);
        }
        let mut i: usize = 0;
        while i < self.entries.len()
            invariant
                i <= self.entries@.len(),
                self.wf(),
                forall|k: int| 0 <= k < i ==> #[trigger] self.entries@[k].0@ != key@,
            decreases self.entries.len() - i,
        {
            if same_text(self.entries[i].0.as_str(), key) {
                proof {
                    lemma_entries_map(self.entries@);
                }
                assert(entries_map(self.entries@)[self.entries@[i as int].0@] == self.entries@[i as int].1@);
                assert(entries_map(self.entries@).contains_key(self.entries@[i as int].0@));
                return Some(self.entries[i].1.clone());
            }
            i = i + 1;
        }
        None
    }

    /// Records `value` for a `key` not recorded yet.
    pub fn insert_new(&mut self, key: String, value: String)
        requires
            old(self).wf(),
            !old(self)@.contains_key(key@),
        ensures
            final(self).wf(),
            final(self)@ == old(self)@.insert(key@, value@),
    {
        proof {
            lemma_entries_map(self.entries@);
        }
        let ghost k = key@;
        let ghost v = value@;
        self.entries.push((key, value));
        assert(self.entries@.drop_last() == old(self).entries@);
        assert forall|i: int, j: int| 0 <= i < j < self.entries@.len() implies #[trigger] self.entries@[i].0@ != #[trigger] self.entries@[j].0@ by {
            if j == self.entries@.len() - 1 {
                assert(self.entries@[i] == old(self).entries@[i]);
            } else {
                assert(self.entries@[i] == old(self).entries@[i]);
                assert(self.entries@[j] == old(self).entries@[j]);
            }
        }
    }
}

/// The state of de-duplication as plain maps from content hash: to the route
/// first captured in the current group, and to `group:route` of the first
/// capture overall.
pub struct DedupView {
    pub local: Map<Seq<char>, Seq<char>>,
    pub global: Map<Seq<char>, Seq<char>>,
}

/// What becomes of a screen.
pub enum Admission {
    /// Same content as the screen of this route, captured earlier in this
    /// group: the screen is skipped.
    Duplicate(String),
    /// Kept; marked as the same as `group:route` when that content was
    /// captured in an earlier group.
    Fresh(Option<String>),
}

pub enum AdmissionView {
    Duplicate(Seq<char>),
    Fresh(Option<Seq<char>>),
}

pub open spec fn admission_view(a: Admission) -> AdmissionView {
    match a {
        Admission::Duplicate(r) => AdmissionView::Duplicate(r@),
        Admission::Fresh(Some(s)) => AdmissionView::Fresh(Some(s@)),
        Admission::Fresh(None) => AdmissionView::Fresh(None),
    }
}

/// `group:route`, how a screen is named across groups.
pub open spec fn screen_ref(group: Seq<char>, route: Seq<char>) -> Seq<char> {
    group + ":"@ + route
}

/// One screen offered for admission: its content hash `key`, in `group`, at
/// the route `actual`.
pub open spec fn dedup_step(s: DedupView, key: Seq<char>, group: Seq<char>, actual: Seq<char>) -> (DedupView, AdmissionView) {
    if s.local.contains_key(key) {
        (s, AdmissionView::Duplicate(s.local[key]))
    } else {
        let same_as = if s.global.contains_key(key) { Some(s.global[key]) } else { None };
        let global = if s.global.contains_key(key) { s.global } else { s.global.insert(key, screen_ref(group, actual)) };
        (DedupView { local: s.local.insert(key, actual), global }, AdmissionView::Fresh(same_as))
    }
}

/// De-duplication of screens by content.
pub struct Dedup {
    local: Seen,
    global: Seen,
}

impl View for Dedup {
    type V = DedupView;

    closed spec fn view(&self) -> DedupView {
        DedupView { local: self.local@, global: self.global@ }
    }
}

impl Dedup {
    pub closed spec fn wf(&self) -> bool {
        self.local.wf() && self.global.wf()
    }

    /// Nothing seen yet.
    pub fn new() -> (d: Self)
        ensures
            d.wf(),
            d@.local == Map::<Seq<char>, Seq<char>>::empty(),
            d@.global == Map::<Seq<char>, Seq<char>>::empty(),
    {
        Dedup { local: Seen::new(), global: Seen::new() }
    }

    /// A new group starts: what was seen in earlier groups stays.
    pub fn start_group(&mut self)
        requires
            old(self).wf(),
        ensures
            final(self).wf(),
            final(self)@.local == Map::<Seq<char>, Seq<char>>::empty(),
            final(self)@.global == old(self)@.global,
    {
        self.local = Seen::new();
    }

    /// Decides on a screen of content hash `key`, reached at route `actual` in `group`.
    pub fn offer(&mut self, key: &str, group: &str, actual: &str) -> (a: Admission)
        requires
            old(self).wf(),
        ensures
            final(self).wf(),
            (final(self)@, admission_view(a)) == dedup_step(old(self)@, key@, group@, actual@),
    {
        if let Some(prev) = self.local.get(key) {
            return Admission::Duplicate(prev);
        }
        self.local.insert_new(key.to_string(), actual.to_string());
        let shared = self.global.get(key);
        if shared.is_none() {
            let mut r = String::from_str(group);
            r.append(":");
            r.append(actual);
            self.global.insert_new(key.to_string(), r);
        }
        Admission::Fresh(shared)
    }
}

/// Within a group, a content captured once is never captured again: offering
/// it a second time gives the route of the first capture.
pub proof fn lemma_repeat_in_group_is_duplicate(
    s: DedupView,
    key: Seq<char>,
    group: Seq<char>,
    first: Seq<char>,
    second: Seq<char>,
)
    requires
        dedup_step(s, key, group, first).1 is Fresh,
    ensures
        dedup_step(dedup_step(s, key, group, first).0, key, group, second).1
            == AdmissionView::Duplicate(first),
{
}

/// What was recorded for a content stays recorded as it was: `same_as`
/// always names the first capture of that content.
pub proof fn lemma_first_capture_stays(s: DedupView, key: Seq<char>, group: Seq<char>, actual: Seq<char>)
    ensures
        forall|k: Seq<char>| #[trigger] s.global.contains_key(k) ==> dedup_step(s, key, group, actual).0.global.contains_key(k)
            && dedup_step(s, key, group, actual).0.global[k] == s.global[k],
{
}

/// A kept screen is marked as the same as another exactly when its content
/// was captured before, and then it names that first capture.
pub proof fn lemma_same_as_names_first_capture(s: DedupView, key: Seq<char>, group: Seq<char>, actual: Seq<char>)
    requires
        !s.local.contains_key(key),
    ensures
        dedup_step(s, key, group, actual).1 == if s.global.contains_key(key) {
            AdmissionView::Fresh(Some(s.global[key]))
        } else {
            AdmissionView::Fresh(None)
        },
        !s.global.contains_key(key) ==> dedup_step(s, key, group, actual).0.global[key] == screen_ref(group, actual),
{
}

/// Each screen kept without a `same_as` records exactly one content not
/// recorded before, and no other offer records anything: over a capture, the
/// unique screens are as many as the distinct contents.
pub proof fn lemma_unique_screens_count_contents(s: DedupView, key: Seq<char>, group: Seq<char>, actual: Seq<char>)
    ensures
        dedup_step(s, key, group, actual).1 == AdmissionView::Fresh(None) ==> !s.global.contains_key(key)
            && dedup_step(s, key, group, actual).0.global.dom() == s.global.dom().insert(key),
        dedup_step(s, key, group, actual).1 != AdmissionView::Fresh(None)
            ==> dedup_step(s, key, group, actual).0.global.dom() == s.global.dom(),
{
    let t = dedup_step(s, key, group, actual);
    if t.1 == AdmissionView::Fresh(None) {
        assert(t.0.global.dom() =~= s.global.dom().insert(key));
    } else {
        assert(t.0.global.dom() =~= s.global.dom());
    }
}

/// Every content seen in the current group is also recorded overall.
pub open spec fn dedup_consistent(s: DedupView) -> bool {
    forall|k: Seq<char>| #[trigger] s.local.contains_key(k) ==> s.global.contains_key(k)
}

/// Offering a screen keeps the state consistent; so does starting a group.
pub proof fn lemma_dedup_consistent(s: DedupView, key: Seq<char>, group: Seq<char>, actual: Seq<char>)
    requires
        dedup_consistent(s),
    ensures
        dedup_consistent(dedup_step(s, key, group, actual).0),
        dedup_consistent(DedupView { local: Map::empty(), global: s.global }),
{
    let t = dedup_step(s, key, group, actual).0;
    assert forall|k: Seq<char>| #[trigger] t.local.contains_key(k) implies t.global.contains_key(k) by {
        if k != key {
            assert(s.local.contains_key(k));
        }
    }
}

/// Decimal digit for `d < 10`.
pub open spec fn digit(d: nat) -> char {
    (48 + d) as char
}

/// Decimal text of `n`, as `Display` writes integers.
pub open spec fn decimal(n: nat) -> Seq<char>
    decreases n,
{
    if n < 10 {
        seq![digit(n)]
    } else {
        decimal(n / 10).push(digit(n % 10))
    }
}

/// Writes `n` in decimal.
pub fn decimal_string(n: u64) -> (s: String)
    ensures
        s@ == decimal(n as nat),
    decreases n,
{
    if n < 10 {
        let mut s = String::new();
        crate::text::push_char(&mut s, ((48 + n) as u8) as char);
        s
    } else {
        let mut s = decimal_string(n / 10);
        crate::text::push_char(&mut s, ((48 + n % 10) as u8) as char);
        s
    }
}

/// How `serde_json` writes one character inside a string literal: `"` and
/// `\` get a backslash, the control characters with a short escape get it
/// (`\b \t \n \f \r`), the other ones below U+0020 become `\u00XX` with
/// lowercase hex digits, everything else stands as it is.
pub open spec fn json_escape_char(c: char) -> Seq<char> {
    if c == '"' {
        seq!['\\', '"']
    } else if c == '\\' {
        seq!['\\', '\\']
    } else if c == '\x08' {
        seq!['\\', 'b']
    } else if c == '\t' {
        seq!['\\', 't']
    } else if c == '\n' {
        seq!['\\', 'n']
    } else if c == '\x0c' {
        seq!['\\', 'f']
    } else if c == '\r' {
        seq!['\\', 'r']
    } else if (c as u32) < 32 {
        seq!['\\', 'u', '0', '0', hex_digit(((c as u32) / 16) as u8), hex_digit(((c as u32) % 16) as u8)]
    } else {
        seq![c]
    }
}

/// The escaped characters of `s`, in order.
pub open spec fn json_escape(s: Seq<char>) -> Seq<char>
    decreases s.len(),
{
    if s.len() == 0 {
        Seq::empty()
    } else {
        json_escape(s.drop_last()) + json_escape_char(s.last())
    }
}

/// The JSON string literal that `serde_json` writes for `s`.
pub open spec fn json_string(s: Seq<char>) -> Seq<char> {
    seq!['"'] + json_escape(s) + seq!['"']
}

/// Trusted: calls `serde_json::to_string` on a string slice. Its contract
/// claims success (serializing a `str` into memory does not fail: the writer
/// is a `Vec`) and states the text as `format_escaped_str` in serde_json's
/// `ser.rs` writes it: a quote, each character escaped by the `ESCAPE` table
/// and `write_char_escape`, a quote.
#[verifier::external_body]
fn json_quote(s: &str) -> (r: Result<String, serde_json::Error>)
    ensures
        r is Ok,
        r matches Ok(t) ==> t@ == json_string(s@),
{
    serde_json::to_string(s)
}

proof fn lemma_hex_digit_plain(d: u8)
    requires
        d < 16,
    ensures
        hex_digit(d) != '\\',
        hex_digit(d) != '"',
        (hex_digit(d) as u32) >= 48,
{
}

proof fn lemma_json_piece_good(c: char)
    ensures
        good_piece(json_escape_char(c), '"'),
        forall|i: int| 0 <= i < json_escape_char(c).len() ==> (#[trigger] json_escape_char(c)[i] as u32) >= 32,
{
    let p = json_escape_char(c);
    assert(trailing_backslashes(Seq::<char>::empty()) == 0);
    assert(seq!['\\'].last() == '\\');
    assert(seq!['\\'].drop_last() =~= Seq::<char>::empty());
    assert(trailing_backslashes(seq!['\\']) == 1 + trailing_backslashes(seq!['\\'].drop_last()));
    if c == '"' || c == '\\' || c == '\x08' || c == '\t' || c == '\n' || c == '\x0c' || c == '\r' {
        assert(p.take(0).len() == 0);
        assert(p.take(1) =~= seq!['\\']);
        assert(p.drop_last() =~= seq!['\\']);
    } else if (c as u32) < 32 {
        let hi = ((c as u32) / 16) as u8;
        let lo = ((c as u32) % 16) as u8;
        lemma_hex_digit_plain(hi);
        lemma_hex_digit_plain(lo);
        assert(p.last() == hex_digit(lo));
        assert forall|i: int| 0 <= i < p.len() implies p[i] != '"' by {
            if i == 4 {
                assert(p[i] == hex_digit(hi));
            }
        }
    }
}

proof fn lemma_json_escape_safe(s: Seq<char>)
    ensures
        quotes_escaped(json_escape(s), '"'),
        ends_even(json_escape(s)),
        forall|i: int| 0 <= i < json_escape(s).len() ==> (#[trigger] json_escape(s)[i] as u32) >= 32,
    decreases s.len(),
{
    if s.len() > 0 {
        let p = s.drop_last();
        lemma_json_escape_safe(p);
        lemma_json_piece_good(s.last());
        lemma_append_good_piece(json_escape(p), json_escape_char(s.last()), '"');
        let e = json_escape(s);
        assert forall|i: int| 0 <= i < e.len() implies (#[trigger] e[i] as u32) >= 32 by {
            if i < json_escape(p).len() {
                assert(e[i] == json_escape(p)[i]);
            } else {
                assert(e[i] == json_escape_char(s.last())[i - json_escape(p).len()]);
            }
        }
    } else {
        assert(json_escape(s).len() == 0);
    }
}

/// A value written into a script as a JSON string cannot break out of it:
/// the literal starts and ends with `"`, every `"` between them follows an
/// odd run of backslashes while the closing one follows an even run, and no
/// control character (line breaks included) stands raw in it.
pub proof fn lemma_json_string_safe(s: Seq<char>)
    ensures
        json_string(s).len() >= 2,
        json_string(s)[0] == '"',
        json_string(s).last() == '"',
        quotes_escaped(json_string(s).subrange(1, json_string(s).len() - 1), '"'),
        ends_even(json_string(s).subrange(1, json_string(s).len() - 1)),
        forall|i: int| 0 <= i < json_string(s).len() ==> (#[trigger] json_string(s)[i] as u32) >= 32,
{
    lemma_json_escape_safe(s);
    let j = json_string(s);
    let e = json_escape(s);
    assert(j.subrange(1, j.len() - 1) =~= e);
    assert forall|i: int| 0 <= i < j.len() implies (#[trigger] j[i] as u32) >= 32 by {
        if 0 < i < j.len() - 1 {
            assert(j[i] == e[i - 1]);
        }
    }
}

#[verifier::external_type_specification]
#[verifier::external_body]
pub struct ExJsonError(serde_json::Error);

/// `s` as a JSON string literal.
pub fn json_literal(s: &str) -> (r: String)
    ensures
        r@ == json_string(s@),
{
    match json_quote(s) {
        Ok(t) => t,
        Err(_) => String::new(),
    }
}

/// `null`, or the JSON string literal of `o`.
pub open spec fn json_option(o: Option<Seq<char>>) -> Seq<char> {
    match o {
        Some(s) => json_string(s),
        None => "null"@,
    }
}

/// Id of the style element that holds the injected CSS.
pub const FIX_CSS_ID: &'static str = "__dom2figma_fix";

/// Empties the injected CSS (service panels must be visible during a setup).
pub const CLEAR_FIX_CSS: &'static str = "window.__dom2figma.setCss('__dom2figma_fix', '')";

/// Reads the route that a hash navigation reached.
pub const HASH_ROUTE: &'static str = "decodeURIComponent(location.hash.slice(1))";

/// Reads the height of the document.
pub const DOC_HEIGHT: &'static str = "window.__dom2figma.docHeight()";

pub open spec fn settle_text(ms: nat) -> Seq<char> {
    "window.__dom2figma.settle("@ + decimal(ms) + ")"@
}

/// Waits `ms` milliseconds and a frame in the page.
pub fn settle_script(ms: u64) -> (s: String)
    ensures
        s@ == settle_text(ms as nat),
{
    let mut s = String::from_str("window.__dom2figma.settle(");
    s.append(decimal_string(ms).as_str());
    s.append(")");
    s
}

pub open spec fn fix_css_text(css: Seq<char>) -> Seq<char> {
    "window.__dom2figma.setCss('__dom2figma_fix', "@ + json_string(css) + ")"@
}

/// Puts `css` into the injected style element.
pub fn fix_css_script(css: &str) -> (s: String)
    ensures
        s@ == fix_css_text(css@),
{
    let mut s = String::from_str("window.__dom2figma.setCss('__dom2figma_fix', ");
    s.append(json_literal(css).as_str());
    s.append(")");
    s
}

pub open spec fn hash_nav_text(route: Seq<char>) -> Seq<char> {
    "location.hash = '#' + "@ + json_string(route)
}

/// Navigates by hash to `route`.
pub fn hash_nav_script(route: &str) -> (s: String)
    ensures
        s@ == hash_nav_text(route@),
{
    let mut s = String::from_str("location.hash = '#' + ");
    s.append(json_literal(route).as_str());
    s
}

pub open spec fn fit_text(root: Seq<char>, scroll: Option<Seq<char>>, min_height: nat) -> Seq<char> {
    "window.__dom2figma.fit("@ + json_string(root) + ", "@ + json_option(scroll) + ", "@ + decimal(min_height) + ")"@
}

/// Unrolls the scroll container so that the root is captured whole.
pub fn fit_script(root: &str, scroll: &Option<String>, min_height: u32) -> (s: String)
    ensures
        s@ == fit_text(root@, crate::text::opt_view(*scroll), min_height as nat),
{
    let mut s = String::from_str("window.__dom2figma.fit(");
    s.append(json_literal(root).as_str());
    s.append(", ");
    match scroll {
        Some(sc) => s.append(json_literal(sc.as_str()).as_str()),
        None => s.append("null"),
    }
    s.append(", ");
    s.append(decimal_string(min_height as u64).as_str());
    s.append(")");
    s
}

pub open spec fn serialize_text(root: Seq<char>) -> Seq<char> {
    "window.__dom2figma.serialize("@ + json_string(root) + ")"@
}

/// Serializes the tree under `root`.
pub fn serialize_script(root: &str) -> (s: String)
    ensures
        s@ == serialize_text(root@),
{
    let mut s = String::from_str("window.__dom2figma.serialize(");
    s.append(json_literal(root).as_str());
    s.append(")");
    s
}

/// One thing to run in the page.
pub enum Step {
    /// Evaluate the script.
    Eval(String),
    /// Evaluate the setup script of the current group (its failure names the group).
    Setup(String),
}

pub enum StepView {
    Eval(Seq<char>),
    Setup(Seq<char>),
}

pub open spec fn step_view(s: Step) -> StepView {
    match s {
        Step::Eval(t) => StepView::Eval(t@),
        Step::Setup(t) => StepView::Setup(t@),
    }
}

pub open spec fn steps_view(v: Seq<Step>) -> Seq<StepView> {
    v.map_values(|s: Step| step_view(s))
}

/// Opening the source: inject the serializer, let the page settle.
pub open spec fn open_steps() -> Seq<StepView> {
    seq![StepView::Eval(crate::assets::SERIALIZE_JS@), StepView::Eval(settle_text(600))]
}

pub fn open_plan() -> (v: Vec<Step>)
    ensures
        steps_view(v@) == open_steps(),
{
    let mut v: Vec<Step> = Vec::new();
    v.push(Step::Eval(String::from_str(crate::assets::SERIALIZE_JS)));
    v.push(Step::Eval(settle_script(600)));
    assert(steps_view(v@) =~= open_steps());
    v
}

/// Entering a group: with a setup, the injected CSS is removed while the
/// setup runs; then the CSS is (re)applied.
pub open spec fn enter_group_steps(cfg: Config, setup: Option<Seq<char>>) -> Seq<StepView> {
    let tail = seq![StepView::Eval(fix_css_text(crate::config::injected_css_of(cfg))), StepView::Eval(settle_text(150))];
    match setup {
        Some(js) => seq![
            StepView::Eval(CLEAR_FIX_CSS@),
            StepView::Eval(settle_text(100)),
            StepView::Setup(js),
            StepView::Eval(settle_text(500)),
        ] + tail,
        None => tail,
    }
}

/// Entering a group with a setup runs that setup once, as a setup step,
/// with the injected CSS removed before it and applied again after it;
/// without a setup only the CSS is applied. Either way the plan ends by
/// applying the CSS and letting the page settle.
pub proof fn lemma_enter_group_runs_setup(cfg: Config, setup: Option<Seq<char>>)
    ensures
        setup matches Some(js) ==> enter_group_steps(cfg, setup) == seq![
            StepView::Eval(CLEAR_FIX_CSS@),
            StepView::Eval(settle_text(100)),
            StepView::Setup(js),
            StepView::Eval(settle_text(500)),
            StepView::Eval(fix_css_text(crate::config::injected_css_of(cfg))),
            StepView::Eval(settle_text(150)),
        ],
        setup is None ==> enter_group_steps(cfg, setup) == seq![
            StepView::Eval(fix_css_text(crate::config::injected_css_of(cfg))),
            StepView::Eval(settle_text(150)),
        ],
{
    if let Some(js) = setup {
        assert(enter_group_steps(cfg, setup) =~= seq![
            StepView::Eval(CLEAR_FIX_CSS@),
            StepView::Eval(settle_text(100)),
            StepView::Setup(js),
            StepView::Eval(settle_text(500)),
            StepView::Eval(fix_css_text(crate::config::injected_css_of(cfg))),
            StepView::Eval(settle_text(150)),
        ]);
    }
}

pub fn enter_group_plan(cfg: &Config, group: &Group) -> (v: Vec<Step>)
    ensures
        steps_view(v@) == enter_group_steps(*cfg, group@.setup),
{
    let mut v: Vec<Step> = Vec::new();
    if let Some(js) = &group.setup {
        v.push(Step::Eval(String::from_str(CLEAR_FIX_CSS)));
        v.push(Step::Eval(settle_script(100)));
        v.push(Step::Setup(js.clone()));
        v.push(Step::Eval(settle_script(500)));
    }
    let css = cfg.injected_css();
    v.push(Step::Eval(fix_css_script(css.as_str())));
    v.push(Step::Eval(settle_script(150)));
    assert(steps_view(v@) =~= enter_group_steps(*cfg, group@.setup));
    v
}

/// After a full page load (`navigation = "url"`): inject the serializer,
/// repeat the setup when the group asks for it, reapply the CSS.
pub open spec fn reload_steps(cfg: Config, g: GroupView) -> Seq<StepView> {
    let setup = if g.setup_each_route && g.setup is Some { seq![StepView::Eval(g.setup->0)] } else { Seq::empty() };
    seq![StepView::Eval(crate::assets::SERIALIZE_JS@)] + setup
        + seq![StepView::Eval(fix_css_text(crate::config::injected_css_of(cfg)))]
}

/// After a page load the serializer is injected first and the CSS applied
/// last; the group's setup runs between them exactly when the group asks for
/// it to run after every route and has one.
pub proof fn lemma_reload_runs_setup(cfg: Config, g: GroupView)
    ensures
        g.setup_each_route && g.setup is Some ==> reload_steps(cfg, g) == seq![
            StepView::Eval(crate::assets::SERIALIZE_JS@),
            StepView::Eval(g.setup->0),
            StepView::Eval(fix_css_text(crate::config::injected_css_of(cfg))),
        ],
        !(g.setup_each_route && g.setup is Some) ==> reload_steps(cfg, g) == seq![
            StepView::Eval(crate::assets::SERIALIZE_JS@),
            StepView::Eval(fix_css_text(crate::config::injected_css_of(cfg))),
        ],
        reload_steps(cfg, g).len() >= 2,
        reload_steps(cfg, g)[0] == StepView::Eval(crate::assets::SERIALIZE_JS@),
        reload_steps(cfg, g).last() == StepView::Eval(fix_css_text(crate::config::injected_css_of(cfg))),
{
    if g.setup_each_route && g.setup is Some {
        assert(reload_steps(cfg, g) =~= seq![
            StepView::Eval(crate::assets::SERIALIZE_JS@),
            StepView::Eval(g.setup->0),
            StepView::Eval(fix_css_text(crate::config::injected_css_of(cfg))),
        ]);
    } else {
        assert(reload_steps(cfg, g) =~= seq![
            StepView::Eval(crate::assets::SERIALIZE_JS@),
            StepView::Eval(fix_css_text(crate::config::injected_css_of(cfg))),
        ]);
    }
}

pub fn reload_plan(cfg: &Config, group: &Group) -> (v: Vec<Step>)
    ensures
        steps_view(v@) == reload_steps(*cfg, group@),
{
    let mut v: Vec<Step> = Vec::new();
    v.push(Step::Eval(String::from_str(crate::assets::SERIALIZE_JS)));
    if group.setup_each_route {
        if let Some(js) = &group.setup {
            v.push(Step::Eval(js.clone()));
        }
    }
    let css = cfg.injected_css();
    v.push(Step::Eval(fix_css_script(css.as_str())));
    assert(steps_view(v@) =~= reload_steps(*cfg, group@));
    v
}

/// After any navigation: settle, unroll the root, settle again.
pub open spec fn after_navigation_steps(cfg: Config) -> Seq<StepView> {
    seq![
        StepView::Eval(settle_text(cfg.settle_ms as nat)),
        StepView::Eval(fit_text(cfg.root@, crate::text::opt_view(cfg.scroll_container), cfg.min_height as nat)),
        StepView::Eval(settle_text(150)),
    ]
}

pub fn after_navigation_plan(cfg: &Config) -> (v: Vec<Step>)
    ensures
        steps_view(v@) == after_navigation_steps(*cfg),
{
    let mut v: Vec<Step> = Vec::new();
    v.push(Step::Eval(settle_script(cfg.settle_ms)));
    v.push(Step::Eval(fit_script(cfg.root.as_str(), &cfg.scroll_container, cfg.min_height)));
    v.push(Step::Eval(settle_script(150)));
    assert(steps_view(v@) =~= after_navigation_steps(*cfg));
    v
}

/// The route as a path for `navigation = "url"`: without its leading slashes.
pub fn url_path(route: &str) -> (p: String)
    ensures
        p@ == crate::output::trim_leading(route@, '/'),
{
    let cs = crate::text::chars_of(route);
    let mut lo: usize = 0;
    assert(cs@.subrange(0, cs@.len() as int) == cs@);
    while lo < cs.len() && cs[lo] == '/'
        invariant
            lo <= cs@.len(),
            crate::output::trim_leading(cs@, '/') == crate::output::trim_leading(cs@.subrange(lo as int, cs@.len() as int), '/'),
        decreases cs.len() - lo,
    {
        assert(cs@.subrange(lo as int, cs@.len() as int).drop_first() == cs@.subrange(lo + 1, cs@.len() as int));
        lo = lo + 1;
    }
    let mut p = String::new();
    crate::text::append_range(&mut p, &cs, lo, cs.len());
    p
}

/// The source URL without its trailing slashes, as characters.
fn source_base(source: &str) -> (b: Vec<char>)
    ensures
        b@ == crate::output::trim_trailing(source@, '/'),
{
    let sv = crate::text::chars_of(source);
    let mut hi = sv.len();
    assert(sv@.subrange(0, sv@.len() as int) == sv@);
    while hi > 0 && sv[hi - 1] == '/'
        invariant
            hi <= sv@.len(),
            crate::output::trim_trailing(sv@, '/') == crate::output::trim_trailing(sv@.subrange(0, hi as int), '/'),
        decreases hi,
    {
        assert(sv@.subrange(0, hi as int).drop_last() == sv@.subrange(0, hi - 1));
        hi = hi - 1;
    }
    let mut base: Vec<char> = Vec::new();
    let mut k: usize = 0;
    while k < hi
        invariant
            k <= hi <= sv@.len(),
            base@ == sv@.subrange(0, k as int),
        decreases hi - k,
    {
        base.push(sv[k]);
        k = k + 1;
        assert(base@ == sv@.subrange(0, k as int));
    }
    base
}

/// The address of `route` under `navigation = "url"`: the source and the
/// route, joined by exactly one `/`.
pub open spec fn route_url_of(source: Seq<char>, route: Seq<char>) -> Seq<char> {
    crate::output::trim_trailing(source, '/') + "/"@ + crate::output::trim_leading(route, '/')
}

pub fn route_url(source: &str, route: &str) -> (u: String)
    ensures
        u@ == route_url_of(source@, route@),
{
    let base = source_base(source);
    let mut u = String::new();
    crate::text::append_range(&mut u, &base, 0, base.len());
    assert(base@.subrange(0, base@.len() as int) == base@);
    u.append("/");
    let p = url_path(route);
    u.append(p.as_str());
    u
}

/// How the page is moved to a route.
pub enum Move {
    /// Evaluate the script in the current page.
    Eval(String),
    /// Load the URL (then reinject, see `reload_plan`).
    Load(String),
}

pub enum MoveView {
    Eval(Seq<char>),
    Load(Seq<char>),
}

pub open spec fn move_view(m: Move) -> MoveView {
    match m {
        Move::Eval(s) => MoveView::Eval(s@),
        Move::Load(u) => MoveView::Load(u@),
    }
}

/// The move to `route` under each navigation mode: a hash change, loading
/// the source URL followed by the route, or the route itself as a script.
pub open spec fn move_of(nav: Navigation, source: Seq<char>, route: Seq<char>) -> MoveView {
    match nav {
        Navigation::Hash => MoveView::Eval(hash_nav_text(route)),
        Navigation::Url => MoveView::Load(route_url_of(source, route)),
        Navigation::Js => MoveView::Eval(route),
    }
}

pub fn navigation_move(nav: Navigation, source: &str, route: &str) -> (m: Move)
    ensures
        move_view(m) == move_of(nav, source@, route@),
{
    match nav {
        Navigation::Hash => Move::Eval(hash_nav_script(route)),
        Navigation::Url => Move::Load(route_url(source, route)),
        Navigation::Js => Move::Eval(String::from_str(route)),
    }
}

/// What to read from the page to learn the route reached.
pub enum Probe {
    /// Evaluate `HASH_ROUTE`.
    HashRoute,
    /// Read the address of the page.
    PageUrl,
    /// Nothing: the requested route stands.
    Nothing,
}

pub fn route_probe(nav: Navigation) -> (p: Probe)
    ensures
        nav == Navigation::Hash ==> p is HashRoute,
        nav == Navigation::Url ==> p is PageUrl,
        nav == Navigation::Js ==> p is Nothing,
{
    match nav {
        Navigation::Hash => Probe::HashRoute,
        Navigation::Url => Probe::PageUrl,
        Navigation::Js => Probe::Nothing,
    }
}

/// What was read.
pub enum Observation {
    /// The string that `HASH_ROUTE` gave, if it gave one.
    HashRoute(Option<String>),
    /// The address of the page.
    PageUrl(String),
    Nothing,
}

/// The route reached, from what the probe read.
pub fn reached_route(requested: &str, source: &str, seen: Observation) -> (r: String)
    ensures
        r@ == match seen {
            Observation::HashRoute(Some(s)) => s@,
            Observation::HashRoute(None) => requested@,
            Observation::PageUrl(u) => route_from_url_of(u@, source@),
            Observation::Nothing => requested@,
        },
{
    match seen {
        Observation::HashRoute(reported) => hash_route(reported, requested),
        Observation::PageUrl(u) => route_from_url(u.as_str(), source),
        Observation::Nothing => String::from_str(requested),
    }
}

/// The route reached by a full navigation: the page address after the
/// source (trimmed of trailing slashes) when it starts with it and goes on;
/// the whole address otherwise.
pub open spec fn route_from_url_of(current: Seq<char>, source: Seq<char>) -> Seq<char> {
    let base = crate::output::trim_trailing(source, '/');
    if crate::text::has_prefix(current, base) && current.len() > base.len() {
        current.skip(base.len() as int)
    } else {
        current
    }
}

pub fn route_from_url(current: &str, source: &str) -> (r: String)
    ensures
        r@ == route_from_url_of(current@, source@),
{
    let base = source_base(source);
    let cv = crate::text::chars_of(current);
    if crate::text::matches_at(&cv, 0, &base) && cv.len() > base.len() {
        let mut r = String::new();
        crate::text::append_range(&mut r, &cv, base.len(), cv.len());
        assert(cv@.subrange(base@.len() as int, cv@.len() as int) == cv@.skip(base@.len() as int));
        r
    } else {
        String::from_str(current)
    }
}

/// Under `navigation = "url"`, a page that stays where it was sent reports
/// back the route requested, with exactly one leading `/`.
pub proof fn lemma_url_route_read_back(source: Seq<char>, route: Seq<char>)
    ensures
        route_from_url_of(route_url_of(source, route), source) == "/"@ + crate::output::trim_leading(route, '/'),
{
    let base = crate::output::trim_trailing(source, '/');
    let u = route_url_of(source, route);
    reveal_strlit("/");
    assert(u.subrange(0, base.len() as int) =~= base);
    assert(crate::text::has_prefix(u, base));
    assert(u.skip(base.len() as int) =~= "/"@ + crate::output::trim_leading(route, '/'));
}

/// The route reached by a hash navigation: what the page reports, or the
/// requested route when it reports no string.
pub fn hash_route(reported: Option<String>, requested: &str) -> (r: String)
    ensures
        r@ == match reported {
            Some(s) => s@,
            None => requested@,
        },
{
    match reported {
        Some(s) => s,
        None => String::from_str(requested),
    }
}

/// Tallest screenshot, in px.
pub const MAX_SHOT_HEIGHT: u32 = 16000;

/// Height of the viewport while a screenshot is taken: the document height,
/// at least the viewport's, at most 16000 px.
pub fn screenshot_height(doc_height: u32, viewport_height: u32) -> (h: u32)
    ensures
        h == if doc_height >= viewport_height {
            if doc_height <= MAX_SHOT_HEIGHT { doc_height } else { MAX_SHOT_HEIGHT }
        } else {
            if viewport_height <= MAX_SHOT_HEIGHT { viewport_height } else { MAX_SHOT_HEIGHT }
        },
        h <= MAX_SHOT_HEIGHT,
{
    let h = if doc_height >= viewport_height { doc_height } else { viewport_height };
    if h <= MAX_SHOT_HEIGHT { h } else { MAX_SHOT_HEIGHT }
}

/// A kept screen: reached at `actual` when `requested` was asked for.
pub fn new_screen<M, T>(requested: &str, actual: String, w: M, h: M, tree: T, same_as: Option<String>) -> (s: Screen<M, T>)
    ensures
        s.route@ == actual@,
        s.requested@ == requested@,
        s.redirected == (actual@ != requested@),
        s.name@ == slug_of(actual@),
        s.w == w,
        s.h == h,
        s.tree == tree,
        s.same_as == same_as,
{
    let redirected = !same_text(actual.as_str(), requested);
    let name = slug(actual.as_str());
    Screen { route: actual, requested: String::from_str(requested), redirected, name, w, h, tree, same_as }
}

/// What happens to de-duplication during a capture: a new group starts, or
/// a screen of content hash `key` is offered in `group` at route `actual`.
pub enum DedupEvent {
    NewGroup,
    Offer(Seq<char>, Seq<char>, Seq<char>),
}

pub open spec fn dedup_apply(s: DedupView, e: DedupEvent) -> DedupView {
    match e {
        DedupEvent::NewGroup => DedupView { local: Map::empty(), global: s.global },
        DedupEvent::Offer(k, g, a) => dedup_step(s, k, g, a).0,
    }
}

/// The state after a sequence of events.
pub open spec fn dedup_run(s: DedupView, evs: Seq<DedupEvent>) -> DedupView
    decreases evs.len(),
{
    if evs.len() == 0 {
        s
    } else {
        dedup_apply(dedup_run(s, evs.drop_last()), evs.last())
    }
}

/// The answer to the last event, when it is an offer.
pub open spec fn last_answer(s: DedupView, evs: Seq<DedupEvent>) -> Option<AdmissionView> {
    match evs.last() {
        DedupEvent::Offer(k, g, a) => Some(dedup_step(dedup_run(s, evs.drop_last()), k, g, a).1),
        DedupEvent::NewGroup => None,
    }
}

/// Number of offers answered as kept without `same_as`: the unique screens.
pub open spec fn unique_count(s: DedupView, evs: Seq<DedupEvent>) -> nat
    decreases evs.len(),
{
    if evs.len() == 0 {
        0
    } else {
        unique_count(s, evs.drop_last()) + if last_answer(s, evs) == Some(AdmissionView::Fresh(None)) { 1nat } else { 0nat }
    }
}

/// The content hashes offered.
pub open spec fn offered_keys(evs: Seq<DedupEvent>) -> Set<Seq<char>>
    decreases evs.len(),
{
    if evs.len() == 0 {
        Set::empty()
    } else {
        match evs.last() {
            DedupEvent::Offer(k, _, _) => offered_keys(evs.drop_last()).insert(k),
            DedupEvent::NewGroup => offered_keys(evs.drop_last()),
        }
    }
}

pub open spec fn dedup_start() -> DedupView {
    DedupView { local: Map::empty(), global: Map::empty() }
}

/// Over a whole capture, from nothing seen: every offered content is recorded
/// once, and the unique screens are exactly as many as the distinct contents.
pub proof fn lemma_unique_screens_are_distinct_contents(evs: Seq<DedupEvent>)
    ensures
        dedup_run(dedup_start(), evs).global.dom() == offered_keys(evs),
        offered_keys(evs).finite(),
        unique_count(dedup_start(), evs) == offered_keys(evs).len(),
        dedup_consistent(dedup_run(dedup_start(), evs)),
    decreases evs.len(),
{
    let s0 = dedup_start();
    if evs.len() == 0 {
        assert(s0.global.dom() =~= Set::<Seq<char>>::empty());
        assert(dedup_consistent(s0));
    } else {
        let p = evs.drop_last();
        lemma_unique_screens_are_distinct_contents(p);
        let s = dedup_run(s0, p);
        let off = offered_keys(p);
        match evs.last() {
            DedupEvent::NewGroup => {
                lemma_dedup_consistent(s, Seq::empty(), Seq::empty(), Seq::empty());
            },
            DedupEvent::Offer(k, g, a) => {
                lemma_dedup_consistent(s, k, g, a);
                let t = dedup_step(s, k, g, a);
                if s.local.contains_key(k) {
                    assert(s.global.contains_key(k));
                    assert(off.insert(k) =~= off);
                } else if s.global.contains_key(k) {
                    assert(off.insert(k) =~= off);
                    assert(t.0.global =~= s.global);
                } else {
                    assert(t.0.global.dom() =~= s.global.dom().insert(k));
                    assert(!off.contains(k));
                }
            },
        }
    }
}

/// The content hashes of the offers answered as kept.
pub open spec fn kept_keys(s: DedupView, evs: Seq<DedupEvent>) -> Seq<Seq<char>>
    decreases evs.len(),
{
    if evs.len() == 0 {
        Seq::empty()
    } else {
        match (evs.last(), last_answer(s, evs)) {
            (DedupEvent::Offer(k, _, _), Some(AdmissionView::Fresh(_))) => kept_keys(s, evs.drop_last()).push(k),
            _ => kept_keys(s, evs.drop_last()),
        }
    }
}

/// Within a group, the screens kept have pairwise different contents, none
/// of them seen in the group before: no content is captured twice in a group.
pub proof fn lemma_group_keeps_distinct_contents(s: DedupView, evs: Seq<DedupEvent>)
    requires
        forall|i: int| 0 <= i < evs.len() ==> #[trigger] evs[i] is Offer,
    ensures
        forall|i: int, j: int| 0 <= i < j < kept_keys(s, evs).len() ==> #[trigger] kept_keys(s, evs)[i] != #[trigger] kept_keys(s, evs)[j],
        forall|i: int| 0 <= i < kept_keys(s, evs).len() ==> !s.local.contains_key(#[trigger] kept_keys(s, evs)[i]),
        forall|i: int| 0 <= i < kept_keys(s, evs).len() ==> dedup_run(s, evs).local.contains_key(#[trigger] kept_keys(s, evs)[i]),
        forall|k: Seq<char>| s.local.contains_key(k) ==> #[trigger] dedup_run(s, evs).local.contains_key(k),
    decreases evs.len(),
{
    if evs.len() > 0 {
        let p = evs.drop_last();
        assert forall|i: int| 0 <= i < p.len() implies #[trigger] p[i] is Offer by {
            assert(p[i] == evs[i]);
        }
        lemma_group_keeps_distinct_contents(s, p);
        assert(evs[evs.len() - 1] is Offer);
        let r = dedup_run(s, p);
        let kp = kept_keys(s, p);
        let kk = kept_keys(s, evs);
        match evs.last() {
            DedupEvent::Offer(k, g, a) => {
                if !r.local.contains_key(k) {
                    assert(kk == kp.push(k));
                    assert forall|i: int, j: int| 0 <= i < j < kk.len() implies #[trigger] kk[i] != #[trigger] kk[j] by {
                        if j == kp.len() {
                            assert(kk[i] == kp[i]);
                            assert(r.local.contains_key(kp[i]));
                        } else {
                            assert(kk[i] == kp[i] && kk[j] == kp[j]);
                        }
                    }
                    assert forall|i: int| 0 <= i < kk.len() implies !s.local.contains_key(#[trigger] kk[i]) by {
                        if i < kp.len() {
                            assert(kk[i] == kp[i]);
                        }
                    }
                    assert forall|i: int| 0 <= i < kk.len() implies dedup_run(s, evs).local.contains_key(#[trigger] kk[i]) by {
                        if i < kp.len() {
                            assert(kk[i] == kp[i]);
                            assert(r.local.contains_key(kp[i]));
                        }
                    }
                } else {
                    assert(kk == kp);
                }
            },
            DedupEvent::NewGroup => {},
        }
    }
}

/// What the page gave after navigating to a route, when it gave a tree: the
/// tree's JSON encoding (what its content hash is taken of), the page size
/// and the tree itself.
pub struct Shot<M, T> {
    pub encoded: Vec<u8>,
    pub w: M,
    pub h: M,
    pub tree: T,
}

/// What became of a route.
pub enum RouteOutcome {
    /// The page gave no tree: nothing is captured.
    Empty,
    /// Same content as the screen of this route, captured earlier in the
    /// group: nothing is captured.
    Duplicate(String),
    /// A screen was added to the group.
    Kept,
}

/// The content hash of a shot.
pub open spec fn shot_key<M, T>(shot: Shot<M, T>) -> Seq<char> {
    hex_lower(blake3_digest(shot.encoded@))
}

/// `s` is the screen made of `shot`, reached at `actual` when `requested`
/// was asked for, marked as the same as `same_as`.
pub open spec fn screen_of<M, T>(
    s: Screen<M, T>,
    requested: Seq<char>,
    actual: Seq<char>,
    shot: Shot<M, T>,
    same_as: Option<Seq<char>>,
) -> bool {
    &&& s.route@ == actual
    &&& s.requested@ == requested
    &&& s.redirected == (actual != requested)
    &&& s.name@ == slug_of(actual)
    &&& s.w == shot.w
    &&& s.h == shot.h
    &&& s.tree == shot.tree
    &&& crate::text::opt_view(s.same_as) == same_as
}

proof fn lemma_unique_of_push<M, T>(gs: Seq<GroupOut<M, T>>, g: GroupOut<M, T>)
    ensures
        unique_of(gs.push(g)) == unique_of(gs) + new_screens(g.screens@),
{
    assert(gs.push(g).drop_last() == gs);
}

proof fn lemma_new_screens_push<M, T>(ss: Seq<Screen<M, T>>, s: Screen<M, T>)
    ensures
        new_screens(ss.push(s)) == new_screens(ss) + if s.same_as is None { 1int } else { 0int },
{
    assert(ss.push(s).drop_last() == ss);
}

/// The screens of a capture as they are collected, group by group, with the
/// de-duplication that decides which are kept.
pub struct Capture<M, T> {
    dedup: Dedup,
    groups: Vec<GroupOut<M, T>>,
    events: Ghost<Seq<DedupEvent>>,
}

impl<M, T> Capture<M, T> {
    /// The groups collected so far.
    pub closed spec fn captured(&self) -> Seq<GroupOut<M, T>> {
        self.groups@
    }

    /// The state of de-duplication.
    pub closed spec fn seen(&self) -> DedupView {
        self.dedup@
    }

    /// The content hashes of all the screens offered so far.
    pub closed spec fn hashes(&self) -> Set<Seq<char>> {
        offered_keys(self.events@)
    }

    /// De-duplication has followed what was offered, from nothing seen, and
    /// the screens kept without `same_as` are as many as its answers so.
    pub closed spec fn wf(&self) -> bool {
        &&& self.dedup.wf()
        &&& self.dedup@ == dedup_run(dedup_start(), self.events@)
        &&& unique_of(self.groups@) == unique_count(dedup_start(), self.events@)
    }

    /// Nothing collected yet.
    pub fn new() -> (c: Self)
        ensures
            c.wf(),
            c.captured() == Seq::<GroupOut<M, T>>::empty(),
            c.seen() == dedup_start(),
            c.hashes() == Set::<Seq<char>>::empty(),
    {
        let c = Capture { dedup: Dedup::new(), groups: Vec::new(), events: Ghost(Seq::empty()) };
        assert(c.dedup@ == dedup_start());
        c
    }

    /// The groups collected so far.
    pub fn groups(&self) -> (g: &Vec<GroupOut<M, T>>)
        ensures
            g@ == self.captured(),
    {
        &self.groups
    }

    /// A new group starts, with no screens: what was seen in earlier groups
    /// stays seen.
    pub fn start_group(&mut self, name: String)
        requires
            old(self).wf(),
        ensures
            final(self).wf(),
            final(self).captured().len() == old(self).captured().len() + 1,
            final(self).captured().drop_last() == old(self).captured(),
            final(self).captured().last().name@ == name@,
            final(self).captured().last().screens@.len() == 0,
            final(self).seen() == (DedupView { local: Map::empty(), global: old(self).seen().global }),
            final(self).hashes() == old(self).hashes(),
    {
        let ghost evs = self.events@;
        let ghost gs = self.groups@;
        self.dedup.start_group();
        let g = GroupOut { name, screens: Vec::new() };
        proof {
            lemma_unique_of_push(gs, g);
            assert(new_screens(g.screens@) == 0);
        }
        self.groups.push(g);
        self.events = Ghost(evs.push(DedupEvent::NewGroup));
        assert(self.events@.drop_last() == evs);
    }

    /// Decides on the page reached at `actual` when `requested` was asked
    /// for, in the current group: nothing is kept when the page gave no tree
    /// or when its content was already captured in this group; otherwise a
    /// screen of it is added to the group, marked as the same as the first
    /// capture of that content in an earlier group, if there was one.
    pub fn add_route(&mut self, requested: &str, actual: String, shot: Option<Shot<M, T>>) -> (r: RouteOutcome)
        requires
            old(self).wf(),
            old(self).captured().len() > 0,
        ensures
            final(self).wf(),
            final(self).captured().len() == old(self).captured().len(),
            match shot {
                None => {
                    &&& r is Empty
                    &&& final(self).captured() == old(self).captured()
                    &&& final(self).seen() == old(self).seen()
                    &&& final(self).hashes() == old(self).hashes()
                },
                Some(sh) => {
                    let group = old(self).captured().last();
                    let step = dedup_step(old(self).seen(), shot_key(sh), group.name@, actual@);
                    &&& final(self).seen() == step.0
                    &&& final(self).hashes() == old(self).hashes().insert(shot_key(sh))
                    &&& match step.1 {
                        AdmissionView::Duplicate(prev) => {
                            &&& r matches RouteOutcome::Duplicate(p) && p@ == prev
                            &&& final(self).captured() == old(self).captured()
                        },
                        AdmissionView::Fresh(same_as) => {
                            let now = final(self).captured().last();
                            &&& r is Kept
                            &&& final(self).captured().drop_last() == old(self).captured().drop_last()
                            &&& now.name == group.name
                            &&& now.screens@.drop_last() == group.screens@
                            &&& now.screens@.len() == group.screens@.len() + 1
                            &&& screen_of(now.screens@.last(), requested@, actual@, sh, same_as)
                        },
                    }
                },
            },
    {
        let shot = match shot {
            None => return RouteOutcome::Empty,
            Some(sh) => sh,
        };
        let ghost evs = self.events@;
        let ghost gs = self.groups@;
        let last = self.groups.len() - 1;
        let key = tree_hash(shot.encoded.as_slice());
        let admission = self.dedup.offer(key.as_str(), self.groups[last].name.as_str(), actual.as_str());
        let ghost ev = DedupEvent::Offer(key@, gs.last().name@, actual@);
        self.events = Ghost(evs.push(ev));
        assert(self.events@.drop_last() == evs);
        assert(self.events@.last() == ev);
        match admission {
            Admission::Duplicate(prev) => RouteOutcome::Duplicate(prev),
            Admission::Fresh(same_as) => {
                let screen = new_screen(requested, actual, shot.w, shot.h, shot.tree, same_as);
                let mut g = self.groups.pop().unwrap();
                assert(self.groups@ == gs.drop_last());
                let ghost before = g.screens@;
                g.screens.push(screen);
                proof {
                    lemma_new_screens_push(before, screen);
                    lemma_unique_of_push(gs.drop_last(), gs.last());
                    lemma_unique_of_push(gs.drop_last(), g);
                    assert(gs.drop_last().push(gs.last()) == gs);
                }
                self.groups.push(g);
                assert(self.groups@.drop_last() == gs.drop_last());
                RouteOutcome::Kept
            },
        }
    }

    /// The result of the capture: the groups collected, under the given
    /// header fields. Its unique screens are exactly as many as the distinct
    /// contents offered.
    pub fn into_output(self, generated_at: String, tool: String, source: String, font: String) -> (o: Output<M, T>)
        requires
            self.wf(),
        ensures
            o.generated_at == generated_at,
            o.tool == tool,
            o.source == source,
            o.font == font,
            o.groups@ == self.captured(),
            self.hashes().finite(),
            unique_of(o.groups@) == self.hashes().len(),
    {
        proof {
            lemma_unique_screens_are_distinct_contents(self.events@);
        }
        Output { generated_at, tool, source, font, groups: self.groups }
    }
}

} // verus!
