use dom2figma::doctor::first_font_file;
use dom2figma::doctor::{chrome_not_found, explicit_chrome, fc_list_font, font_file_matches, mac_font_missing, run, FC_LIST_MISSING};

#[test]
fn report_is_ok_when_both_found() {
    assert!(run(Ok("/usr/bin/chromium".into()), Ok("Inter".into())).ok());
    assert!(!run(Err("no".into()), Ok("Inter".into())).ok());
    assert!(!run(Ok("/c".into()), Err(FC_LIST_MISSING.into())).ok());
}

#[test]
fn fc_list_finds_family_case_insensitively() {
    let listing = "DejaVu Sans\n Inter Display , inter \r\nNoto Serif\n";
    assert_eq!(fc_list_font(listing, "INTER"), Ok("Inter Display , inter".to_string()));
    assert_eq!(fc_list_font(listing, "Noto Serif"), Ok("Noto Serif".to_string()));
    assert_eq!(
        fc_list_font(listing, "Roboto"),
        Err("шрифт «Roboto» не найден (fc-list). Положите TTF в ~/.local/share/fonts/ и выполните fc-cache -f".to_string())
    );
    assert!(fc_list_font("", "").is_err());
    assert!(fc_list_font("a\n", "").is_err());
}

#[test]
fn mac_font_files() {
    assert!(font_file_matches("Inter Bold.TTF", "inter"));
    assert!(font_file_matches("Open Sans.otf", "OpenSans"));
    assert!(!font_file_matches("Inter.woff2", "Inter"));
    assert!(!font_file_matches("Roboto.ttf", "Inter"));
    assert!(mac_font_missing("X").starts_with("шрифт «X» не найден"));
}

#[test]
fn chrome_paths() {
    assert_eq!(explicit_chrome("/c".into(), true), Ok("/c".to_string()));
    assert_eq!(explicit_chrome("/c".into(), false), Err("указанный Chrome не найден: /c".to_string()));
    assert!(chrome_not_found("Could not auto detect a chrome executable").contains("--chrome"));
}

#[test]
fn mac_search_takes_first_matching_file_in_order() {
    let entries = vec![
        ("Roboto.ttf".to_string(), "/a/Roboto.ttf".to_string()),
        ("Inter Regular.otf".to_string(), "/a/Inter Regular.otf".to_string()),
        ("Inter.ttc".to_string(), "/b/Inter.ttc".to_string()),
    ];
    assert_eq!(first_font_file(&entries, "Inter"), Ok("/a/Inter Regular.otf".to_string()));
    assert_eq!(first_font_file(&entries, "Lato"), Err(mac_font_missing("Lato")));
}
