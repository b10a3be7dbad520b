use std::path::PathBuf;
use pake::session::{
    is_restorable_url, load_for_restore, load_settings, request_save, restore_enabled,
    save_is_current, session_get_restore, session_set_restore, session_snapshot, set_restoring,
    SessionData, SessionSettings, SessionState, SessionTab,
};
use pake::tabs::{TabInfo, TabsModel};

fn tab(label: &str, url: &str) -> TabInfo {
    TabInfo { label: label.to_string(), title: label.to_uppercase(), url: url.to_string() }
}

fn state() -> SessionState {
    SessionState::new(PathBuf::from("/cfg/pake"), SessionSettings::default())
}

#[test]
fn rejects_internal_and_malformed_urls() {
    assert!(!is_restorable_url(""));
    assert!(!is_restorable_url("about:blank"));
    assert!(!is_restorable_url("paketabs://localhost/"));
    assert!(!is_restorable_url("http://pakebookmarks.localhost/"));
    assert!(!is_restorable_url("data:text/html,hi"));
    assert!(!is_restorable_url("not a url"));
    assert!(!is_restorable_url("javascript:alert(1)"));
}

#[test]
fn accepts_normal_web_urls() {
    assert!(is_restorable_url("https://example.com"));
    assert!(is_restorable_url("http://example.com/path?q=1"));
}

#[test]
fn active_index_is_clamped_on_load() {
    let data = SessionData {
        tabs: vec![
            SessionTab {
                url: "https://a.com".into(),
                title: "A".into(),
            },
            SessionTab {
                url: "https://b.com".into(),
                title: "B".into(),
            },
        ],
        active: 9,
    };
    let clamped = data.active.min(data.tabs.len() - 1);
    assert_eq!(clamped, 1);
}

#[test]
fn default_settings_enable_restore() {
    assert!(SessionSettings::default().restore_session);
}

#[test]
fn load_for_restore_filters_and_clamps() {
    let s = state();
    let data = SessionData {
        tabs: vec![
            SessionTab { url: "https://a.com".into(), title: "A".into() },
            SessionTab { url: "about:blank".into(), title: "blank".into() },
            SessionTab { url: "https://b.com".into(), title: "B".into() },
        ],
        active: 9,
    };
    let restored = load_for_restore(Some(&s), Some(data)).unwrap();
    assert_eq!(restored.tabs.len(), 2);
    assert_eq!(restored.tabs[1].url, "https://b.com");
    assert_eq!(restored.active, 1);
}

#[test]
fn load_for_restore_gives_nothing_when_disabled_empty_or_missing() {
    let mut s = state();
    let only_internal = SessionData {
        tabs: vec![SessionTab { url: "paketabs://localhost/".into(), title: String::new() }],
        active: 0,
    };
    assert!(load_for_restore(Some(&s), Some(only_internal)).is_none());
    assert!(load_for_restore(Some(&s), None).is_none());
    assert!(load_for_restore(None, Some(SessionData::default())).is_none());
    session_set_restore(&mut s, false);
    let data = SessionData { tabs: vec![SessionTab { url: "https://a.com".into(), title: "A".into() }], active: 0 };
    assert!(load_for_restore(Some(&s), Some(data)).is_none());
}

#[test]
fn snapshot_skips_internal_pages_and_tracks_the_active_tab() {
    let s = state();
    let model = TabsModel {
        tabs: vec![
            tab("pake-content-1", "https://a.com"),
            tab("pake-content-2", "pakebookmarks://localhost/"),
            tab("pake-content-3", "https://c.com/x"),
        ],
        active: "pake-content-3".to_string(),
        counter: 3,
    };
    let snap = session_snapshot(&s, &model).unwrap();
    assert_eq!(snap.tabs.len(), 2);
    assert_eq!(snap.tabs[0].url, "https://a.com");
    assert_eq!(snap.tabs[0].title, "PAKE-CONTENT-1");
    assert_eq!(snap.tabs[1].url, "https://c.com/x");
    assert_eq!(snap.active, 1);
}

#[test]
fn snapshot_then_restore_gives_the_same_session() {
    let s = state();
    let model = TabsModel {
        tabs: vec![tab("pake-content-1", "https://a.com"), tab("pake-content-2", "https://b.com")],
        active: "pake-content-2".to_string(),
        counter: 2,
    };
    let snap = session_snapshot(&s, &model).unwrap();
    let copy = SessionData { tabs: snap.tabs.clone(), active: snap.active };
    let restored = load_for_restore(Some(&s), Some(copy)).unwrap();
    assert_eq!(restored.active, snap.active);
    assert_eq!(restored.tabs.len(), snap.tabs.len());
    for (a, b) in restored.tabs.iter().zip(snap.tabs.iter()) {
        assert_eq!(a.url, b.url);
        assert_eq!(a.title, b.title);
    }
}

#[test]
fn snapshot_keeps_the_last_session_when_nothing_is_restorable_or_restoring() {
    let mut s = state();
    let internal = TabsModel {
        tabs: vec![tab("pake-content-1", "pakebookmarks://localhost/")],
        active: "pake-content-1".to_string(),
        counter: 1,
    };
    assert!(session_snapshot(&s, &internal).is_none());
    let normal = TabsModel {
        tabs: vec![tab("pake-content-1", "https://a.com")],
        active: "pake-content-9".to_string(),
        counter: 1,
    };
    assert_eq!(session_snapshot(&s, &normal).unwrap().active, 0);
    set_restoring(&mut s, true);
    assert!(session_snapshot(&s, &normal).is_none());
}

#[test]
fn only_the_newest_save_request_writes() {
    let mut s = state();
    let first = request_save(&mut s).unwrap();
    let second = request_save(&mut s).unwrap();
    assert_eq!(first, 1);
    assert_eq!(second, 2);
    assert!(!save_is_current(&s, first));
    assert!(save_is_current(&s, second));
    set_restoring(&mut s, true);
    assert!(request_save(&mut s).is_none());
    assert_eq!(s.generation, 2);
}

#[test]
fn settings_load_and_toggle() {
    assert!(load_settings(None).restore_session);
    assert!(!load_settings(Some(SessionSettings { restore_session: false })).restore_session);
    let mut s = state();
    assert!(restore_enabled(Some(&s)));
    assert!(!restore_enabled(None));
    session_set_restore(&mut s, false);
    assert!(!session_get_restore(Some(&s)));
}

#[test]
fn session_and_settings_paths() {
    let s = state();
    assert_eq!(s.session_path(), PathBuf::from("/cfg/pake").join("pake-session.json"));
    assert_eq!(s.settings_path(), PathBuf::from("/cfg/pake").join("pake-settings.json"));
    assert_ne!(s.session_path(), s.settings_path());
    assert!(!s.restoring);
    assert_eq!(s.generation, 0);
}

#[test]
fn restoring_a_restored_session_changes_nothing() {
    let s = state();
    let data = SessionData {
        tabs: vec![
            SessionTab { url: "data:text/plain,x".into(), title: "D".into() },
            SessionTab { url: "https://a.com".into(), title: "A".into() },
            SessionTab { url: "file:///tmp/b.html".into(), title: "B".into() },
        ],
        active: 0,
    };
    let once = load_for_restore(Some(&s), Some(data)).unwrap();
    let twice = load_for_restore(Some(&s), Some(once.clone())).unwrap();
    assert_eq!(once.active, 0);
    assert_eq!(twice.active, once.active);
    assert_eq!(twice.tabs.len(), 2);
    assert_eq!(twice.tabs[0].url, "https://a.com");
    assert_eq!(twice.tabs[1].url, "file:///tmp/b.html");
}

#[test]
fn in_a_run_of_requests_only_the_last_token_is_current() {
    let mut s = state();
    let tokens: Vec<u64> = (0..5).map(|_| request_save(&mut s).unwrap()).collect();
    assert_eq!(s.generation, 5);
    let current: Vec<bool> = tokens.iter().map(|t| save_is_current(&s, *t)).collect();
    assert_eq!(current, vec![false, false, false, false, true]);
    let mut wrapped = SessionState { generation: u64::MAX, ..state() };
    assert_eq!(request_save(&mut wrapped), Some(0));
}

#[test]
fn restorable_exactly_when_bookmarkable() {
    for url in [
        "", "  ", "about:blank", "ABOUT:config", "data:text/html,hi", "https://example.com",
        "file:///x", "paketabs://localhost/", "http://pakebookmarks.localhost/", "javascript:alert(1)",
    ] {
        assert_eq!(is_restorable_url(url), pake::bookmarks::is_valid_url(url), "{url}");
    }
}
