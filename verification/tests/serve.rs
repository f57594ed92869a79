use dom2figma::serve::{bind_address, file_name_of, file_url, json_listing, plan_request, Reply};

#[test]
fn listing_keeps_json_sorted() {
    let names: Vec<String> = ["b.json", "a.txt", "A.json", "a.json", "c.json.bak"].iter().map(|s| s.to_string()).collect();
    assert_eq!(json_listing(&names), vec!["A.json", "a.json", "b.json"]);
}

#[test]
fn requests() {
    assert!(matches!(plan_request(true, "/x"), Reply::Preflight));
    assert!(matches!(plan_request(false, "/screens.json?t=1"), Reply::Json(n) if n == "screens.json"));
    assert!(matches!(plan_request(false, "/dir/../x.json"), Reply::Json(n) if n == "x.json"));
    assert!(matches!(plan_request(false, "/"), Reply::NotFound));
    assert!(matches!(plan_request(false, "/a.txt"), Reply::NotFound));
    assert!(matches!(plan_request(false, "/a.json/.."), Reply::NotFound));
}

#[test]
fn addresses() {
    assert_eq!(bind_address(8787), "127.0.0.1:8787");
    assert_eq!(file_url(8787, "screens.json"), "http://localhost:8787/screens.json");
}

#[test]
fn served_names_stay_in_the_directory() {
    assert!(matches!(plan_request(false, "/../secret.json"), Reply::Json(n) if n == "secret.json"));
    assert!(matches!(plan_request(false, "/a/b/screens.json"), Reply::Json(n) if n == "screens.json"));
    assert!(matches!(plan_request(false, "/screens.json/."), Reply::Json(n) if n == "screens.json"));
    assert!(matches!(plan_request(false, "/.."), Reply::NotFound));
    assert!(matches!(plan_request(false, "//"), Reply::NotFound));
}

#[test]
fn file_names_follow_path_components() {
    assert_eq!(file_name_of("a/b.json").as_deref(), Some("b.json"));
    assert_eq!(file_name_of("a/b.json/").as_deref(), Some("b.json"));
    assert_eq!(file_name_of("a/b.json/.").as_deref(), Some("b.json"));
    assert_eq!(file_name_of("a//b").as_deref(), Some("b"));
    assert_eq!(file_name_of("x"), Some("x".to_string()));
    assert_eq!(file_name_of("a/.."), None);
    assert_eq!(file_name_of(".."), None);
    assert_eq!(file_name_of("/"), None);
    assert_eq!(file_name_of("."), None);
    assert_eq!(file_name_of(""), None);
    assert_eq!(file_name_of("./.x").as_deref(), Some(".x"));
}
