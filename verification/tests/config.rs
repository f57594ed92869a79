use dom2figma::config::local_source_url;
use dom2figma::config::{d_font, d_out, d_root, d_settle, d_true, Config, ConfigError, Group, Navigation, Source, Viewport};

fn base(source: &str, routes: &[&str]) -> Config {
    Config {
        source: source.to_string(),
        root: d_root(),
        font: d_font(),
        force_font: d_true(),
        viewport: Viewport::default(),
        fix_css: String::new(),
        scroll_container: None,
        min_height: 0,
        settle_ms: d_settle(),
        navigation: Navigation::default(),
        out: d_out(),
        png: d_true(),
        chrome: None,
        routes: routes.iter().map(|r| r.to_string()).collect(),
        groups: Vec::new(),
    }
}

fn group(name: &str, routes: &[&str]) -> Group {
    Group { name: name.to_string(), setup: None, setup_each_route: false, routes: routes.iter().map(|r| r.to_string()).collect() }
}

#[test]
fn defaults_are_documented_values() {
    assert_eq!(d_root(), "body");
    assert_eq!(d_font(), "Inter");
    assert!(d_true());
    assert_eq!(d_settle(), 400);
    assert_eq!(d_out(), "out");
    let v = Viewport::default();
    assert_eq!((v.width, v.height), (1400, 1000));
    assert_eq!(Navigation::default(), Navigation::Hash);
}

#[test]
fn without_groups_one_default_group_takes_the_routes() {
    let cfg = base("index.html", &["/"]);
    let groups = cfg.effective_groups();
    assert_eq!(groups.len(), 1);
    assert_eq!(groups[0].name, "default");
    assert_eq!(groups[0].routes, vec!["/"]);
    assert!(groups[0].setup.is_none());
}

#[test]
fn groups_without_routes_take_the_common_ones() {
    let mut cfg = base("x.html", &["/a", "/b"]);
    cfg.groups = vec![group("Гость", &[]), group("Менеджер", &["/m"])];
    let g = cfg.effective_groups();
    assert_eq!(g[0].name, "Гость");
    assert_eq!(g[0].routes, vec!["/a", "/b"]);
    assert_eq!(g[1].routes, vec!["/m"]);
}

#[test]
fn validation_rules_in_order() {
    assert_eq!(base("x.html", &["/"]).validate(), Ok(()));
    assert_eq!(base("  \t", &["/"]).validate(), Err(ConfigError::EmptySource));
    assert_eq!(base("", &[]).validate(), Err(ConfigError::EmptySource));
    assert_eq!(base("x.html", &[]).validate(), Err(ConfigError::NoRoutes));
    let mut only_group_routes = base("x.html", &[]);
    only_group_routes.groups = vec![group("a", &["/a"])];
    assert_eq!(only_group_routes.validate(), Ok(()));
    let mut unnamed = base("x.html", &["/"]);
    unnamed.groups = vec![group("a", &[]), group(" ", &[])];
    assert_eq!(unnamed.validate(), Err(ConfigError::UnnamedGroup));
}

#[test]
fn validation_messages() {
    assert_eq!(ConfigError::EmptySource.message(), "`source` пуст");
    assert_eq!(
        ConfigError::NoRoutes.message(),
        "не задано ни одного маршрута: заполните `routes` или `groups[].routes`"
    );
    assert_eq!(ConfigError::UnnamedGroup.message(), "у группы пустое имя");
}

#[test]
fn injected_css_forces_font_on_root() {
    let mut cfg = base("x.html", &["/"]);
    cfg.root = ".app".to_string();
    cfg.fix_css = ".panel{display:none}".to_string();
    let css = cfg.injected_css();
    assert_eq!(css, ".panel{display:none}\n.app,.app *{font-family:'Inter',sans-serif!important}");
    cfg.force_font = false;
    assert_eq!(cfg.injected_css(), ".panel{display:none}");
}

#[test]
fn source_url_parses_web_addresses_and_keeps_paths() {
    match base("https://example.com/app/", &["/"]).source_url() {
        Ok(Source::Remote(u)) => assert_eq!(u, "https://example.com/app/"),
        _ => panic!("expected a remote source"),
    }
    match base("https://example.com", &["/"]).source_url() {
        Ok(Source::Remote(u)) => assert_eq!(u, "https://example.com/"),
        _ => panic!("expected a remote source"),
    }
    match base("dom2figma-test.html", &["/"]).source_url() {
        Ok(Source::LocalFile(p)) => assert_eq!(p, "dom2figma-test.html"),
        _ => panic!("expected a local source"),
    }
    assert!(matches!(base("http://[bad", &["/"]).source_url(), Err(ConfigError::BadUrl)));
}

#[test]
fn example_config_mentions_every_section() {
    let example = dom2figma::config::EXAMPLE;
    assert!(example.contains("source = "));
    assert!(example.contains("routes = "));
    assert!(example.contains("[[groups]]"));
    assert!(example.contains("[viewport]"));
}

#[test]
fn local_sources_become_file_urls() {
    assert_eq!(local_source_url("/tmp/a b.html"), Ok("file:///tmp/a%20b.html".to_string()));
    assert_eq!(local_source_url("rel.html"), Err("не удалось построить file:// URL для rel.html".to_string()));
}
