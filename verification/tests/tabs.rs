use pake::tabs::{
    chrome_url, content_target, download_file_name, home_url, next_tab_label, record_tab, show_plan, tab_close,
    tab_new_target, tab_report, tab_switch, TabInfo, TabsModel, Visibility,
};

fn model_with(n: u32) -> TabsModel {
    let mut m = TabsModel::default();
    for i in 0..n {
        let label = next_tab_label(&mut m);
        record_tab(&mut m, label, format!("https://site{i}.com"));
    }
    m
}

fn labels(m: &TabsModel) -> Vec<String> {
    m.tabs.iter().map(|t: &TabInfo| t.label.clone()).collect()
}

#[test]
fn new_tabs_get_counted_labels_and_become_active() {
    let m = model_with(3);
    assert_eq!(labels(&m), vec!["pake-content-1", "pake-content-2", "pake-content-3"]);
    assert_eq!(m.active, "pake-content-3");
    assert_eq!(m.counter, 3);
    assert_eq!(m.tabs[0].title, "New Tab");
    assert_eq!(m.tabs[1].url, "https://site1.com");
}

#[test]
fn switch_only_to_existing_tabs() {
    let mut m = model_with(2);
    tab_switch(&mut m, &"pake-content-1".to_string());
    assert_eq!(m.active, "pake-content-1");
    tab_switch(&mut m, &"pake-content-7".to_string());
    assert_eq!(m.active, "pake-content-1");
}

#[test]
fn closing_the_active_tab_activates_its_neighbour() {
    let mut m = model_with(3);
    tab_switch(&mut m, &"pake-content-2".to_string());
    let (active, empty) = tab_close(&mut m, &"pake-content-2".to_string());
    assert_eq!(active, "pake-content-3");
    assert!(!empty);
    let (active, _) = tab_close(&mut m, &"pake-content-3".to_string());
    assert_eq!(active, "pake-content-1");
    let (active, empty) = tab_close(&mut m, &"pake-content-1".to_string());
    assert_eq!(active, "");
    assert!(empty);
}

#[test]
fn closing_another_tab_keeps_the_active_one() {
    let mut m = model_with(3);
    let (active, empty) = tab_close(&mut m, &"pake-content-1".to_string());
    assert_eq!(active, "pake-content-3");
    assert!(!empty);
    assert_eq!(labels(&m), vec!["pake-content-2", "pake-content-3"]);
    let (active, _) = tab_close(&mut m, &"pake-content-9".to_string());
    assert_eq!(active, "pake-content-3");
    assert_eq!(m.tabs.len(), 2);
}

#[test]
fn reports_ignore_blank_values() {
    let mut m = model_with(1);
    tab_report(&mut m, &"pake-content-1".to_string(), "Example".to_string(), "  ".to_string());
    assert_eq!(m.tabs[0].title, "Example");
    assert_eq!(m.tabs[0].url, "https://site0.com");
    tab_report(&mut m, &"pake-content-1".to_string(), "".to_string(), "https://x.org/".to_string());
    assert_eq!(m.tabs[0].title, "Example");
    assert_eq!(m.tabs[0].url, "https://x.org/");
}

#[test]
fn home_and_new_tab_targets() {
    assert_eq!(home_url(&vec!["https://home.example".to_string(), "https://b".to_string()]), "https://home.example");
    assert_eq!(home_url(&Vec::new()), "");
    assert_eq!(tab_new_target(Some("https://x.com".to_string()), "https://h".to_string()), "https://x.com");
    assert_eq!(tab_new_target(Some("   ".to_string()), "https://h".to_string()), "https://h");
    assert_eq!(tab_new_target(None, "https://h".to_string()), "https://h");
}

#[test]
fn content_target_falls_back_to_home_then_blank() {
    assert_eq!(content_target("https://x.com", "https://h.com"), "https://x.com");
    assert_eq!(content_target("not a url", "https://h.com"), "https://h.com");
    assert_eq!(content_target("not a url", ""), "about:blank");
}

#[test]
fn chrome_url_uses_the_custom_scheme() {
    assert_eq!(chrome_url(), "paketabs://localhost/");
}

#[test]
fn show_plan_shows_only_the_active_tab() {
    let plan = show_plan(
        &vec!["pake-chrome".to_string(), "pake-content-1".to_string(), "pake-content-2".to_string()],
        &"pake-content-2".to_string(),
    );
    assert!(matches!(plan[0], Visibility::Untouched));
    assert!(matches!(plan[1], Visibility::Hide));
    assert!(matches!(plan[2], Visibility::Show));
}

#[test]
fn closing_the_last_tab_then_reopening_home_leaves_one_fresh_tab() {
    let mut m = model_with(1);
    let (_, empty) = tab_close(&mut m, &"pake-content-1".to_string());
    assert!(empty);
    let label = next_tab_label(&mut m);
    record_tab(&mut m, label, "https://home.example".to_string());
    assert_eq!(labels(&m), vec!["pake-content-2"]);
    assert_eq!(m.tabs[0].title, "New Tab");
    assert_eq!(m.tabs[0].url, "https://home.example");
    assert_eq!(m.active, "pake-content-2");
}

#[test]
fn download_names_fall_back_in_order() {
    assert_eq!(download_file_name(Some("a.pdf".to_string()), Some("b".to_string())), "a.pdf");
    assert_eq!(download_file_name(Some(String::new()), Some("b.zip".to_string())), "b.zip");
    assert_eq!(download_file_name(None, Some(String::new())), "download");
    assert_eq!(download_file_name(None, None), "download");
}
