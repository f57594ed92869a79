use dom2figma::output::{slug, tree_hash, GroupOut, Output, Screen};

#[test]
fn slug_examples() {
    assert_eq!(slug("/"), "home");
    assert_eq!(slug(""), "home");
    assert_eq!(slug("/welcome"), "welcome");
    assert_eq!(slug("/orders/o1"), "orders_o1");
    assert_eq!(slug("/manager/client/c_alexander/orders"), "manager_client_c_alexander_orders");
    assert_eq!(slug("/search?q=шёлк&page=2"), "search_q_шёлк_page_2");
    assert_eq!(slug("https://example.com/a/b/"), "example.com_a_b");
    assert_eq!(slug("file:///x/y.html#/cart"), "cart");
}

#[test]
fn slug_keeps_dashes_and_dots_and_collapses_runs() {
    assert_eq!(slug("//a--b..c//__d"), "a--b..c_d");
    assert_eq!(slug("http://x/#"), "home");
    assert_eq!(slug("___"), "home");
}

#[test]
fn slug_is_idempotent_on_examples() {
    for r in ["/orders/o1?x=1", "https://example.com/a/b/", "/", "#/cart", "/search?q=шёлк&page=2"] {
        let s = slug(r);
        assert_eq!(slug(&s), s);
        assert!(!s.is_empty());
        assert!(!s.starts_with('_') && !s.ends_with('_'));
        assert!(!s.contains('/'));
    }
}

#[test]
fn slug_ignores_everything_before_last_hash() {
    assert_eq!(slug("/a/b#c#/d/e"), slug("/d/e"));
}

fn json(text: &str) -> Vec<u8> {
    let v: serde_json::Value = serde_json::from_str(text).unwrap();
    serde_json::to_vec(&v).unwrap()
}

#[test]
fn tree_hash_is_stable_and_order_independent() {
    let a = json(r#"{"type": "frame", "x": 1, "children": [{"type": "text", "text": "a"}]}"#);
    let b = json(r#"{"children": [{"text": "a", "type": "text"}], "x": 1, "type": "frame"}"#);
    assert_eq!(tree_hash(&a), tree_hash(&b));
    let c = json(r#"{"type": "frame", "x": 2, "children": []}"#);
    assert_ne!(tree_hash(&a), tree_hash(&c));
}

#[test]
fn tree_hash_is_lowercase_hex_of_blake3() {
    let h = tree_hash(b"");
    assert_eq!(h, "af1349b9f5f9a1a6a0404dea36dcc9499bcb25c9adc112b7cc9a93cae41f3262");
    assert_eq!(h.len(), 64);
}

#[test]
fn output_counts() {
    let mk = |same: Option<&str>| Screen {
        route: "/".into(),
        requested: "/".into(),
        redirected: false,
        name: "home".into(),
        w: 390.0,
        h: 844.0,
        tree: serde_json::Value::Object(serde_json::Map::new()),
        same_as: same.map(String::from),
    };
    let out = Output {
        generated_at: String::new(),
        tool: String::new(),
        source: String::new(),
        font: String::new(),
        groups: vec![
            GroupOut { name: "a".into(), screens: vec![mk(None), mk(None)] },
            GroupOut { name: "b".into(), screens: vec![mk(Some("a:/"))] },
        ],
    };
    assert_eq!(out.total(), 3);
    assert_eq!(out.unique(), 2);
}

#[test]
fn empty_output_counts_nothing() {
    let out: Output<f64, ()> = Output {
        generated_at: String::new(),
        tool: String::new(),
        source: String::new(),
        font: String::new(),
        groups: vec![GroupOut { name: "a".into(), screens: vec![] }],
    };
    assert_eq!(out.total(), 0);
    assert_eq!(out.unique(), 0);
}
