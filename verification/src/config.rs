//! Project configuration (`dom2figma.toml`): defaults, validation, the groups
//! that a capture walks, the CSS injected before capture and the kind of source.

use vstd::prelude::*;
use crate::text::{blank, clone_opt, clone_strings, is_blank, has_prefix, opt_view, starts_with};

verus! {

#[derive(Debug, Clone)]
pub struct Config {
    /// Path of the HTML file, or an http(s) URL.
    pub source: String,
    /// CSS selector of the screen root.
    pub root: String,
    /// Font used for capture and substituted in Figma.
    pub font: String,
    /// Force `font` on every element under the root.
    pub force_font: bool,
    pub viewport: Viewport,
    /// CSS injected before capture.
    pub fix_css: String,
    /// Selector of an inner scroll container to unroll to full height.
    pub scroll_container: Option<String>,
    /// Minimal root height in px (0: leave as is).
    pub min_height: u32,
    /// Pause after navigation, ms.
    pub settle_ms: u64,
    pub navigation: Navigation,
    /// Output directory.
    pub out: String,
    /// Save a PNG of every screen.
    pub png: bool,
    /// Path of Chrome/Chromium; searched for when absent.
    pub chrome: Option<String>,
    /// Default routes of every group.
    pub routes: Vec<String>,
    /// State groups (personas, roles, themes). Empty: one group `default`.
    pub groups: Vec<Group>,
}

#[derive(Debug, Clone, Copy)]
pub struct Viewport {
    pub width: u32,
    pub height: u32,
}

impl Default for Viewport {
    fn default() -> (v: Self)
        ensures
            v.width == 1400,
            v.height == 1000,
    {
        Viewport { width: 1400, height: 1000 }
    }
}

#[derive(Debug, Clone, Copy, PartialEq, Eq, Structural)]
pub enum Navigation {
    /// `location.hash = '#' + route`
    Hash,
    /// Full navigation to `source + route`.
    Url,
    /// The route is a JS expression evaluated in the page.
    Js,
}

impl Default for Navigation {
    fn default() -> (n: Self)
        ensures
            n == Navigation::Hash,
    {
        Navigation::Hash
    }
}

#[derive(Debug, Clone)]
pub struct Group {
    pub name: String,
    /// JS that switches the state (clicks a persona, sets localStorage, ...).
    pub setup: Option<String>,
    /// Run `setup` again after every navigation.
    pub setup_each_route: bool,
    /// Routes of the group; empty: the common `routes`.
    pub routes: Vec<String>,
}

/// A group as plain values.
pub struct GroupView {
    pub name: Seq<char>,
    pub setup: Option<Seq<char>>,
    pub setup_each_route: bool,
    pub routes: Seq<Seq<char>>,
}

impl View for Group {
    type V = GroupView;

    open spec fn view(&self) -> GroupView {
        GroupView {
            name: self.name@,
            setup: opt_view(self.setup),
            setup_each_route: self.setup_each_route,
            routes: self.routes.deep_view(),
        }
    }
}

/// Why a configuration is refused.
#[derive(Debug, Clone, Copy, PartialEq, Eq, Structural)]
pub enum ConfigError {
    /// `source` is empty or blank.
    EmptySource,
    /// Neither `routes` nor any `groups[].routes` names a route.
    NoRoutes,
    /// A group has a blank name.
    UnnamedGroup,
    /// `source` starts like an http(s) URL but does not parse as one.
    BadUrl,
}

pub open spec fn error_text(e: ConfigError) -> Seq<char> {
    match e {
        ConfigError::EmptySource => "`source` пуст"@,
        ConfigError::NoRoutes => "не задано ни одного маршрута: заполните `routes` или `groups[].routes`"@,
        ConfigError::UnnamedGroup => "у группы пустое имя"@,
        ConfigError::BadUrl => "`source` не является корректным URL"@,
    }
}

impl ConfigError {
    /// Message shown to the user.
    pub fn message(&self) -> (m: String)
        ensures
            m@ == error_text(*self),
    {
        match self {
            ConfigError::EmptySource => String::from_str("`source` пуст"),
            ConfigError::NoRoutes => String::from_str(
                "не задано ни одного маршрута: заполните `routes` или `groups[].routes`",
            ),
            ConfigError::UnnamedGroup => String::from_str("у группы пустое имя"),
            ConfigError::BadUrl => String::from_str("`source` не является корректным URL"),
        }
    }
}

/// Example configuration written by `dom2figma init`.
pub const EXAMPLE: &'static str = r##"# dom2figma: что и как снимать.

# HTML-файл (путь относительно этого конфига) или http(s) URL.
source = "prototype.html"

# CSS-селектор корня экрана; для обычного сайта — body.
root = "body"

# Шрифт съёмки: должен быть установлен локально и доступен в Figma.
font = "Inter"
# Применить font ко всем элементам корня через !important.
force_font = true

# hash — меняет location.hash; url — переходит на source + route; js — выполняет маршрут как JS.
navigation = "hash"

# Раскрыть внутренний скролл на всю высоту и задать базовую высоту корня.
# scroll_container = ".device__scroll"
# min_height = 844

# CSS перед съёмкой: скрыть служебные панели, убрать рамки.
# fix_css = ".panel{display:none!important}"

# Пауза после навигации, мс.
settle_ms = 400

# Каталог результатов и сохранение PNG.
out = "out"
png = true

# Путь к Chrome; по умолчанию ищется сам.
# chrome = "/usr/bin/chromium"

# Маршруты для всех групп.
routes = ["/", "/catalog", "/cart"]

[viewport]
width = 1400
height = 1000

# Группы состояний: у каждой свой JS setup и, при желании, свои маршруты.
[[groups]]
name = "Гость"
setup = "localStorage.setItem('role', 'guest'); location.reload()"

[[groups]]
name = "Менеджер"
setup = "localStorage.setItem('role', 'manager'); location.reload()"
routes = ["/manager", "/manager/clients"]
"##;

/// Default root selector: `body`.
pub fn d_root() -> (s: String)
    ensures
        s@ == seq!['b', 'o', 'd', 'y'],
{
    let s = String::from_str("body");
    proof {
        reveal_strlit("body");
    }
    s
}

/// Default font: `Inter`.
pub fn d_font() -> (s: String)
    ensures
        s@ == seq!['I', 'n', 't', 'e', 'r'],
{
    let s = String::from_str("Inter");
    proof {
        reveal_strlit("Inter");
    }
    s
}

/// Default of the flags that are on unless switched off (`force_font`, `png`).
pub fn d_true() -> (b: bool)
    ensures
        b,
{
    true
}

/// Default pause after navigation: 400 ms.
pub fn d_settle() -> (ms: u64)
    ensures
        ms == 400,
{
    400
}

/// Default output directory: `out`.
pub fn d_out() -> (s: String)
    ensures
        s@ == seq!['o', 'u', 't'],
{
    let s = String::from_str("out");
    proof {
        reveal_strlit("out");
    }
    s
}

/// Some route is configured, in `routes` or in a group.
pub open spec fn has_routes(cfg: Config) -> bool {
    cfg.routes@.len() > 0 || exists|i: int| 0 <= i < cfg.groups@.len() && #[trigger] cfg.groups@[i].routes@.len() > 0
}

/// Some group has a blank name.
pub open spec fn has_unnamed_group(cfg: Config) -> bool {
    exists|i: int| 0 <= i < cfg.groups@.len() && is_blank(#[trigger] cfg.groups@[i].name@)
}

/// What `validate` answers: the first rule broken, in the order source,
/// routes, group names.
pub open spec fn validation_of(cfg: Config) -> Result<(), ConfigError> {
    if is_blank(cfg.source@) {
        Err(ConfigError::EmptySource)
    } else if !has_routes(cfg) {
        Err(ConfigError::NoRoutes)
    } else if has_unnamed_group(cfg) {
        Err(ConfigError::UnnamedGroup)
    } else {
        Ok(())
    }
}

/// A configuration is accepted exactly when its source is not blank, some
/// route is configured (in `routes` or in some group) and no group has a blank
/// name; a blank source is reported before missing routes, and missing routes
/// before a blank group name.
pub proof fn lemma_validation_rules(cfg: Config)
    ensures
        validation_of(cfg) is Ok <==> {
            &&& !is_blank(cfg.source@)
            &&& (cfg.routes@.len() > 0 || exists|i: int| 0 <= i < cfg.groups@.len() && #[trigger] cfg.groups@[i].routes@.len() > 0)
            &&& forall|i: int| 0 <= i < cfg.groups@.len() ==> !is_blank(#[trigger] cfg.groups@[i].name@)
        },
        is_blank(cfg.source@) ==> validation_of(cfg) == Err::<(), ConfigError>(ConfigError::EmptySource),
        !is_blank(cfg.source@) && cfg.routes@.len() == 0
            && (forall|i: int| 0 <= i < cfg.groups@.len() ==> #[trigger] cfg.groups@[i].routes@.len() == 0)
            ==> validation_of(cfg) == Err::<(), ConfigError>(ConfigError::NoRoutes),
        forall|i: int| 0 <= i < cfg.groups@.len() && is_blank(#[trigger] cfg.groups@[i].name@)
            ==> validation_of(cfg) is Err,
{
}

/// The name of the only group of a configuration without groups.
pub open spec fn default_group_name() -> Seq<char> {
    seq!['d', 'e', 'f', 'a', 'u', 'l', 't']
}

/// The `i`-th group that a capture walks: groups take the common routes
/// when they have none of their own; without groups there is one, `default`.
pub open spec fn effective_group(cfg: Config, i: int) -> GroupView {
    if cfg.groups@.len() == 0 {
        GroupView {
            name: default_group_name(),
            setup: None,
            setup_each_route: false,
            routes: cfg.routes.deep_view(),
        }
    } else {
        let g = cfg.groups@[i];
        GroupView {
            name: g.name@,
            setup: opt_view(g.setup),
            setup_each_route: g.setup_each_route,
            routes: if g.routes@.len() == 0 { cfg.routes.deep_view() } else { g.routes.deep_view() },
        }
    }
}

/// The groups a capture walks are the configured ones, in order, each keeping
/// its name, setup and `setup_each_route`; only a group without routes takes
/// the common ones. Without configured groups there is the one `default`
/// group, without setup, over the common routes.
pub proof fn lemma_effective_groups_keep_configured(cfg: Config)
    ensures
        cfg.groups@.len() > 0 ==> effective_count(cfg) == cfg.groups@.len(),
        forall|i: int| 0 <= i < cfg.groups@.len() ==> {
            let e = #[trigger] effective_group(cfg, i);
            let g = cfg.groups@[i]@;
            &&& e.name == g.name
            &&& e.setup == g.setup
            &&& e.setup_each_route == g.setup_each_route
            &&& g.routes.len() > 0 ==> e.routes == g.routes
            &&& g.routes.len() == 0 ==> e.routes == cfg.routes.deep_view()
        },
        cfg.groups@.len() == 0 ==> effective_count(cfg) == 1 && effective_group(cfg, 0) == (GroupView {
            name: seq!['d', 'e', 'f', 'a', 'u', 'l', 't'],
            setup: None,
            setup_each_route: false,
            routes: cfg.routes.deep_view(),
        }),
{
    assert forall|i: int| 0 <= i < cfg.groups@.len() implies {
        let e = #[trigger] effective_group(cfg, i);
        let g = cfg.groups@[i]@;
        &&& e.name == g.name
        &&& e.setup == g.setup
        &&& e.setup_each_route == g.setup_each_route
        &&& g.routes.len() > 0 ==> e.routes == g.routes
        &&& g.routes.len() == 0 ==> e.routes == cfg.routes.deep_view()
    } by {
        assert(cfg.groups@[i].routes.deep_view().len() == cfg.groups@[i].routes@.len());
    }
}

/// Number of groups that a capture walks.
pub open spec fn effective_count(cfg: Config) -> int {
    if cfg.groups@.len() == 0 { 1 } else { cfg.groups@.len() as int }
}

/// The rule forcing the font on the root and everything under it.
pub open spec fn font_rule(root: Seq<char>, font: Seq<char>) -> Seq<char> {
    "\n"@ + root + ","@ + root + " *{font-family:'"@ + font + "',sans-serif!important}"@
}

/// The CSS injected before capture.
pub open spec fn injected_css_of(cfg: Config) -> Seq<char> {
    if cfg.force_font {
        cfg.fix_css@ + font_rule(cfg.root@, cfg.font@)
    } else {
        cfg.fix_css@
    }
}

/// Where the screens come from.
pub enum Source {
    /// An http(s) URL, as the URL parser writes it back.
    Remote(String),
    /// A path to an HTML file, relative to the configuration's directory.
    LocalFile(String),
}

/// The URL that the WHATWG URL parser of the `url` crate makes of `input`
/// (its serialization), or `None` where it refuses the input.
pub uninterp spec fn url_serialization(input: Seq<char>) -> Option<Seq<char>>;

#[verifier::external_type_specification]
#[verifier::external_body]
pub struct ExUrlParseError(url::ParseError);

/// Trusted: calls `url::Url::parse` and returns the parsed URL as text
/// (`Url::as_str`). Its contract names that text, a function of the input
/// alone, and says that an error comes exactly where the name has none.
#[verifier::external_body]
fn parse_url(input: &str) -> (r: Result<String, url::ParseError>)
    ensures
        match r {
            Ok(s) => url_serialization(input@) == Some(s@),
            Err(_) => url_serialization(input@) is None,
        },
{
    url::Url::parse(input).map(|u| u.as_str().to_string())
}

/// The `file://` URL that the `url` crate makes of an absolute path, or
/// `None` where it refuses the path (one that is not absolute).
pub uninterp spec fn file_url_serialization(path: Seq<char>) -> Option<Seq<char>>;

/// Trusted: calls `url::Url::from_file_path` and returns the URL as text
/// (`Url::as_str`). Its contract names that text, a function of the path
/// alone, and states what the source shows of it: it starts with `file://`.
#[verifier::external_body]
fn url_from_file_path(path: &str) -> (r: Result<String, ()>)
    ensures
        match r {
            Ok(u) => file_url_serialization(path@) == Some(u@) && has_prefix(u@, "file://"@),
            Err(_) => file_url_serialization(path@) is None,
        },
{
    url::Url::from_file_path(path).map(|u| u.as_str().to_string())
}

pub open spec fn local_source_url_of(canonical: Seq<char>) -> Result<Seq<char>, Seq<char>> {
    match file_url_serialization(canonical) {
        Some(u) => Ok(u),
        None => Err("не удалось построить file:// URL для "@ + canonical),
    }
}

/// The URL of a local source, given its canonical (absolute) path.
pub fn local_source_url(canonical: &str) -> (r: Result<String, String>)
    ensures
        match r {
            Ok(u) => local_source_url_of(canonical@) == Ok::<Seq<char>, Seq<char>>(u@) && has_prefix(u@, "file://"@),
            Err(m) => local_source_url_of(canonical@) == Err::<Seq<char>, Seq<char>>(m@),
        },
{
    match url_from_file_path(canonical) {
        Ok(u) => Ok(u),
        Err(_) => {
            let mut m = String::from_str("не удалось построить file:// URL для ");
            m.append(canonical);
            Err(m)
        },
    }
}

pub open spec fn is_web_address(s: Seq<char>) -> bool {
    has_prefix(s, "http://"@) || has_prefix(s, "https://"@)
}

/// What `source_url` answers.
pub open spec fn source_of(cfg: Config) -> Result<Result<Seq<char>, Seq<char>>, ConfigError> {
    if is_web_address(cfg.source@) {
        match url_serialization(cfg.source@) {
            Some(u) => Ok(Ok(u)),
            None => Err(ConfigError::BadUrl),
        }
    } else {
        Ok(Err(cfg.source@))
    }
}

pub open spec fn source_view(s: Source) -> Result<Seq<char>, Seq<char>> {
    match s {
        Source::Remote(u) => Ok(u@),
        Source::LocalFile(p) => Err(p@),
    }
}

impl Config {
    /// Checks the rules that deserialization cannot: a non-blank source,
    /// at least one route, named groups.
    pub fn validate(&self) -> (r: Result<(), ConfigError>)
        ensures
            r == validation_of(*self),
    {
        if blank(self.source.as_str()) {
            return Err(ConfigError::EmptySource);
        }
        let mut found = self.routes.len() > 0;
        let mut i: usize = 0;
        while i < self.groups.len()
            invariant
                i <= self.groups@.len(),
                found == (self.routes@.len() > 0 || exists|k: int| 0 <= k < i && #[trigger] self.groups@[k].routes@.len() > 0),
            decreases self.groups.len() - i,
        {
            if self.groups[i].routes.len() > 0 {
                found = true;
            }
            i = i + 1;
        }
        if !found {
            return Err(ConfigError::NoRoutes);
        }
        assert(has_routes(*self));
        let mut j: usize = 0;
        while j < self.groups.len()
            invariant
                j <= self.groups@.len(),
                !is_blank(self.source@),
                has_routes(*self),
                forall|k: int| 0 <= k < j ==> !is_blank(#[trigger] self.groups@[k].name@),
            decreases self.groups.len() - j,
        {
            if blank(self.groups[j].name.as_str()) {
                assert(is_blank(self.groups@[j as int].name@));
                return Err(ConfigError::UnnamedGroup);
            }
            j = j + 1;
        }
        Ok(())
    }

    /// Groups with their routes filled in. Without groups: one, `default`.
    pub fn effective_groups(&self) -> (res: Vec<Group>)
        ensures
            res@.len() == effective_count(*self),
            forall|i: int| 0 <= i < res@.len() ==> #[trigger] res@[i]@ == effective_group(*self, i),
    {
        if self.groups.len() == 0 {
            let name = String::from_str("default");
            proof {
                reveal_strlit("default");
            }
            let g = Group { name, setup: None, setup_each_route: false, routes: clone_strings(&self.routes) };
            assert(g.name@ =~= default_group_name());
            let mut v: Vec<Group> = Vec::new();
            v.push(g);
            assert(v@[0]@ == effective_group(*self, 0));
            return v;
        }
        let mut res: Vec<Group> = Vec::new();
        let mut i: usize = 0;
        while i < self.groups.len()
            invariant
                i <= self.groups@.len(),
                self.groups@.len() > 0,
                res@.len() == i,
                forall|k: int| 0 <= k < i ==> #[trigger] res@[k]@ == effective_group(*self, k),
            decreases self.groups.len() - i,
        {
            let g = &self.groups[i];
            let routes = if g.routes.len() == 0 { clone_strings(&self.routes) } else { clone_strings(&g.routes) };
            let ng = Group {
                name: g.name.clone(),
                setup: clone_opt(&g.setup),
                setup_each_route: g.setup_each_route,
                routes,
            };
            res.push(ng);
            i = i + 1;
        }
        res
    }

    /// CSS injected before capture: the user's CSS, plus the forced font.
    pub fn injected_css(&self) -> (css: String)
        ensures
            css@ == injected_css_of(*self),
    {
        let mut css = self.fix_css.clone();
        if self.force_font {
            css.append("\n");
            css.append(self.root.as_str());
            css.append(",");
            css.append(self.root.as_str());
            css.append(" *{font-family:'");
            css.append(self.font.as_str());
            css.append("',sans-serif!important}");
        }
        css
    }

    /// The source as a URL: an http(s) address is parsed and kept; anything
    /// else is a file path, which the caller resolves against the
    /// configuration's directory.
    pub fn source_url(&self) -> (r: Result<Source, ConfigError>)
        ensures
            match r {
                Ok(s) => source_of(*self) == Ok::<_, ConfigError>(source_view(s)),
                Err(e) => source_of(*self) == Err::<Result<Seq<char>, Seq<char>>, _>(e),
            },
    {
        if starts_with(self.source.as_str(), "http://") || starts_with(self.source.as_str(), "https://") {
            match parse_url(self.source.as_str()) {
                Ok(u) => Ok(Source::Remote(u)),
                Err(_) => Err(ConfigError::BadUrl),
            }
        } else {
            Ok(Source::LocalFile(self.source.clone()))
        }
    }
}

/// A configuration that passes validation gives a capture something to do:
/// some group that it walks has a route, and every such group has a name.
pub proof fn lemma_valid_config_has_work(cfg: Config)
    requires
        validation_of(cfg) is Ok,
    ensures
        exists|i: int| 0 <= i < effective_count(cfg) && (#[trigger] effective_group(cfg, i)).routes.len() > 0,
        forall|i: int| 0 <= i < effective_count(cfg) ==> !is_blank(#[trigger] effective_group(cfg, i).name),
{
    if cfg.groups@.len() == 0 {
        assert(cfg.routes@.len() > 0);
        assert(effective_group(cfg, 0).routes.len() > 0);
        let d = default_group_name();
        assert(!crate::text::char_is_whitespace(d[0]));
        assert(!is_blank(effective_group(cfg, 0).name));
    } else {
        if cfg.routes@.len() > 0 {
            assert(effective_group(cfg, 0).routes.len() > 0);
        } else {
            let k = choose|k: int| 0 <= k < cfg.groups@.len() && #[trigger] cfg.groups@[k].routes@.len() > 0;
            assert(effective_group(cfg, k).routes.len() > 0);
        }
        assert forall|i: int| 0 <= i < effective_count(cfg) implies !is_blank(#[trigger] effective_group(cfg, i).name) by {
            assert(effective_group(cfg, i).name == cfg.groups@[i].name@);
        }
    }
}

} // verus!
