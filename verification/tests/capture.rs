use dom2figma::capture::{json_literal, navigation_move, reached_route, route_url, Capture, Move, Observation, RouteOutcome, Shot};
use dom2figma::capture::{
    decimal_string, enter_group_plan, fit_script, hash_nav_script, hash_route, new_screen, route_from_url,
    screenshot_height, select_groups, select_routes, settle_script, url_path, Admission, CaptureError, Dedup, Step,
};
use dom2figma::config::{Config, Group, Navigation, Viewport};

fn strings(v: &[&str]) -> Vec<String> {
    v.iter().map(|s| s.to_string()).collect()
}

fn config(groups: Vec<Group>) -> Config {
    Config {
        source: "x.html".into(),
        root: "#app".into(),
        font: "Inter".into(),
        force_font: false,
        viewport: Viewport { width: 390, height: 844 },
        fix_css: ".p{}".into(),
        scroll_container: Some(".scroll".into()),
        min_height: 844,
        settle_ms: 400,
        navigation: Navigation::Hash,
        out: "out".into(),
        png: true,
        chrome: None,
        routes: strings(&["/", "/a"]),
        groups,
    }
}

fn group(name: &str, setup: Option<&str>) -> Group {
    Group { name: name.into(), setup: setup.map(String::from), setup_each_route: false, routes: vec![] }
}

#[test]
fn group_filter_keeps_named_groups_in_order() {
    let cfg = config(vec![group("a", None), group("b", None), group("c", None)]);
    let all = select_groups(&cfg, &vec![]).unwrap();
    assert_eq!(all.len(), 3);
    let some = select_groups(&cfg, &strings(&["c", "a"])).unwrap();
    let names: Vec<&str> = some.iter().map(|g| g.name.as_str()).collect();
    assert_eq!(names, vec!["a", "c"]);
    assert!(matches!(select_groups(&cfg, &strings(&["zzz"])), Err(CaptureError::NoGroupMatched)));
}

#[test]
fn route_filter() {
    let routes = strings(&["/", "/a", "/b"]);
    assert_eq!(select_routes(&routes, &vec![]), routes);
    assert_eq!(select_routes(&routes, &strings(&["/b", "/x"])), strings(&["/b"]));
}

#[test]
fn dedup_skips_repeats_in_group_and_marks_repeats_across_groups() {
    let mut d = Dedup::new();
    d.start_group();
    assert!(matches!(d.offer("h1", "a", "/"), Admission::Fresh(None)));
    assert!(matches!(d.offer("h2", "a", "/second"), Admission::Fresh(None)));
    match d.offer("h1", "a", "/again") {
        Admission::Duplicate(prev) => assert_eq!(prev, "/"),
        _ => panic!("expected a duplicate"),
    }
    d.start_group();
    match d.offer("h1", "b", "/x") {
        Admission::Fresh(Some(s)) => assert_eq!(s, "a:/"),
        _ => panic!("expected a repeat of a:/"),
    }
    assert!(matches!(d.offer("h1", "b", "/y"), Admission::Duplicate(_)));
    assert!(matches!(d.offer("h3", "b", "/z"), Admission::Fresh(None)));
}

#[test]
fn screens_record_redirects_and_names() {
    let s = new_screen("/a", "/b/c".to_string(), 1.0, 2.0, (), None);
    assert!(s.redirected);
    assert_eq!(s.name, "b_c");
    assert_eq!(s.requested, "/a");
    let t = new_screen("/a", "/a".to_string(), 1.0, 2.0, (), Some("g:/a".to_string()));
    assert!(!t.redirected);
    assert_eq!(t.same_as.as_deref(), Some("g:/a"));
}

#[test]
fn scripts() {
    assert_eq!(decimal_string(0), "0");
    assert_eq!(decimal_string(1234567), "1234567");
    assert_eq!(settle_script(400), "window.__dom2figma.settle(400)");
    assert_eq!(hash_nav_script("/a\"b"), "location.hash = '#' + \"/a\\\"b\"");
    assert_eq!(fit_script("#app", &Some(".s".into()), 844), "window.__dom2figma.fit(\"#app\", \".s\", 844)");
    assert_eq!(fit_script("#app", &None, 0), "window.__dom2figma.fit(\"#app\", null, 0)");
}

#[test]
fn group_with_setup_hides_css_while_setting_up() {
    let cfg = config(vec![]);
    let plan = enter_group_plan(&cfg, &group("g", Some("go()")));
    assert_eq!(plan.len(), 6);
    assert!(matches!(&plan[0], Step::Eval(s) if s == "window.__dom2figma.setCss('__dom2figma_fix', '')"));
    assert!(matches!(&plan[2], Step::Setup(s) if s == "go()"));
    assert!(matches!(&plan[4], Step::Eval(s) if s == "window.__dom2figma.setCss('__dom2figma_fix', \".p{}\")"));
    let plain = enter_group_plan(&cfg, &group("g", None));
    assert_eq!(plain.len(), 2);
}

#[test]
fn routes_after_navigation() {
    assert_eq!(url_path("//a/b"), "a/b");
    assert_eq!(route_from_url("http://h/app/x", "http://h/app/"), "/x");
    assert_eq!(route_from_url("http://h/app", "http://h/app/"), "http://h/app");
    assert_eq!(route_from_url("http://other/x", "http://h/app"), "http://other/x");
    assert_eq!(hash_route(Some("/r".into()), "/q"), "/r");
    assert_eq!(hash_route(None, "/q"), "/q");
}

#[test]
fn screenshot_height_is_clamped() {
    assert_eq!(screenshot_height(500, 844), 844);
    assert_eq!(screenshot_height(3000, 844), 3000);
    assert_eq!(screenshot_height(20000, 844), 16000);
}

#[test]
fn json_literals_escape_quotes_and_controls() {
    assert_eq!(json_literal("a\"b\\c"), "\"a\\\"b\\\\c\"");
    assert_eq!(json_literal("x\ny\t\u{1}\u{8}\u{c}\r"), "\"x\\ny\\t\\u0001\\b\\f\\r\"");
    assert_eq!(json_literal("шёлк/"), "\"шёлк/\"");
}

#[test]
fn navigation_moves() {
    match navigation_move(Navigation::Url, "http://h/app/", "/x") {
        Move::Load(u) => assert_eq!(u, "http://h/app/x"),
        _ => panic!("expected a load"),
    }
    match navigation_move(Navigation::Url, "http://h/app", "/x?q=1") {
        Move::Load(u) => assert_eq!(u, "http://h/app/x?q=1"),
        _ => panic!("expected a load"),
    }
    assert!(matches!(navigation_move(Navigation::Hash, "http://h/", "/x"), Move::Eval(s) if s == "location.hash = '#' + \"/x\""));
    assert!(matches!(navigation_move(Navigation::Js, "http://h/", "go()"), Move::Eval(s) if s == "go()"));
}

#[test]
fn url_targets_are_source_plus_route() {
    assert_eq!(route_url("http://h/app", "/x"), "http://h/app/x");
    assert_eq!(route_url("http://h/app//", "//x/y"), "http://h/app/x/y");
    assert_eq!(route_url("http://h/", ""), "http://h/");
    let target = route_url("http://h/app/", "/x");
    assert_eq!(route_from_url(&target, "http://h/app/"), "/x");
}

fn shot(bytes: &[u8], tree: u32) -> Option<Shot<f64, u32>> {
    Some(Shot { encoded: bytes.to_vec(), w: 390.0, h: 844.0, tree })
}

#[test]
fn capture_keeps_routes_minus_empty_pages_and_duplicates() {
    let mut c: Capture<f64, u32> = Capture::new();
    c.start_group("a".to_string());
    assert!(matches!(c.add_route("/", "/".to_string(), shot(b"[1]", 1)), RouteOutcome::Kept));
    assert!(matches!(c.add_route("/e", "/e".to_string(), None), RouteOutcome::Empty));
    match c.add_route("/d", "/d".to_string(), shot(b"[1]", 2)) {
        RouteOutcome::Duplicate(prev) => assert_eq!(prev, "/"),
        _ => panic!("expected a duplicate"),
    }
    assert!(matches!(c.add_route("/b", "/c".to_string(), shot(b"[2]", 3)), RouteOutcome::Kept));
    c.start_group("b".to_string());
    assert!(matches!(c.add_route("/", "/z".to_string(), shot(b"[1]", 4)), RouteOutcome::Kept));
    assert!(matches!(c.add_route("/q", "/q".to_string(), None), RouteOutcome::Empty));
    let groups = c.groups();
    assert_eq!(groups.len(), 2);
    assert_eq!(groups[0].name, "a");
    let first: Vec<(&str, &str, bool, u32)> =
        groups[0].screens.iter().map(|s| (s.requested.as_str(), s.route.as_str(), s.redirected, s.tree)).collect();
    assert_eq!(first, vec![("/", "/", false, 1), ("/b", "/c", true, 3)]);
    assert_eq!(groups[0].screens[1].name, "c");
    assert_eq!(groups[1].screens.len(), 1);
    assert_eq!(groups[1].screens[0].same_as.as_deref(), Some("a:/"));
    assert_eq!(groups[1].screens[0].w, 390.0);
    let out = c.into_output("t".to_string(), "dom2figma".to_string(), "x.html".to_string(), "Inter".to_string());
    assert_eq!(out.total(), 3);
    assert_eq!(out.unique(), 2);
    assert_eq!(out.source, "x.html");
}

#[test]
fn capture_empty_group_has_no_screens() {
    let mut c: Capture<f64, u32> = Capture::new();
    c.start_group("only".to_string());
    assert!(matches!(c.add_route("/", "/".to_string(), None), RouteOutcome::Empty));
    let out = c.into_output(String::new(), String::new(), String::new(), String::new());
    assert_eq!(out.groups.len(), 1);
    assert_eq!(out.total(), 0);
    assert_eq!(out.unique(), 0);
}

#[test]
fn reached_routes() {
    assert_eq!(reached_route("/q", "http://h/app/", Observation::HashRoute(Some("/r".into()))), "/r");
    assert_eq!(reached_route("/q", "http://h/app/", Observation::HashRoute(None)), "/q");
    assert_eq!(reached_route("/q", "http://h/app/", Observation::PageUrl("http://h/app/z".into())), "/z");
    assert_eq!(reached_route("/q", "http://h/app/", Observation::Nothing), "/q");
}
