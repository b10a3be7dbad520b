use std::path::PathBuf;
use pake::bookmarks::{
    bookmark_add, bookmark_add_at, bookmark_is, bookmark_list, bookmark_remove,
    bookmark_remove_url, bookmark_update, bookmark_update_at, epoch_millis, is_valid_url, load,
    normalize_url,
    Bookmark, BookmarksState,
};

fn empty_store() -> BookmarksState {
    BookmarksState { dir: PathBuf::from("/data/pake"), items: Vec::new(), counter: 0 }
}

fn bm(id: &str, url: &str) -> Bookmark {
    Bookmark { id: id.to_string(), title: id.to_string(), url: url.to_string(), created: 1, updated: 1 }
}

#[test]
fn normalizes_for_dedup() {
    assert_eq!(
        normalize_url("https://Example.com/"),
        normalize_url("https://example.com")
    );
    assert_eq!(
        normalize_url("https://example.com/path#frag"),
        "https://example.com/path"
    );
    assert_ne!(
        normalize_url("https://example.com/a"),
        normalize_url("https://example.com/b")
    );
    assert_eq!(
        normalize_url("https://example.com/p?q=1"),
        "https://example.com/p?q=1"
    );
}

#[test]
fn validates_schemes() {
    assert!(is_valid_url("https://example.com"));
    assert!(is_valid_url("http://example.com/x"));
    assert!(!is_valid_url("javascript:alert(1)"));
    assert!(!is_valid_url("pakebookmarks://localhost/"));
    assert!(!is_valid_url("not a url"));
    assert!(!is_valid_url(""));
}

#[test]
fn rejects_internal_pages_in_their_windows_host_form() {
    assert!(!is_valid_url("http://pakebookmarks.localhost/"));
    assert!(!is_valid_url("http://paketabs.localhost/"));
    assert!(!is_valid_url("HTTP://PakeBookmarks.localhost/"));
    assert!(!is_valid_url("paketabs://localhost/"));
}

#[test]
fn normalizes_port_trailing_slashes_and_blank_space() {
    assert_eq!(normalize_url("  http://Example.COM:8080/a//  "), "http://example.com:8080/a");
    assert_eq!(normalize_url("https://example.com:443/"), "https://example.com");
    assert_eq!(normalize_url("file:///tmp/x/"), "file:///tmp/x");
    // Text that does not parse is compared trimmed and in lower case.
    assert_eq!(normalize_url("  Not A URL "), "not a url");
}

#[test]
fn accepts_file_urls_and_trims() {
    assert!(is_valid_url("file:///home/user/index.html"));
    assert!(is_valid_url("  https://example.com  "));
    assert!(!is_valid_url("ftp://example.com"));
    assert!(!is_valid_url("https://sub.paketabs.localhost.example/"));
}

#[test]
fn path_joins_the_bookmarks_file() {
    let s = empty_store();
    assert_eq!(s.path(), PathBuf::from("/data/pake").join("pake-bookmarks.json"));
    let s2 = BookmarksState { dir: PathBuf::from("/data/"), items: Vec::new(), counter: 0 };
    assert_eq!(s2.path(), PathBuf::from("/data/").join("pake-bookmarks.json"));
}

#[test]
fn add_then_is_bookmarked() {
    let mut s = empty_store();
    let b = bookmark_add_at(&mut s, " https://Example.com/page/ ".to_string(), Some("  My page ".to_string()), 1700)
        .unwrap();
    assert_eq!(b.id, "bm-1700-0");
    assert_eq!(b.title, "My page");
    assert_eq!(b.url, "https://Example.com/page/");
    assert_eq!(b.created, 1700);
    assert_eq!(b.updated, 1700);
    assert_eq!(s.counter, 1);
    assert!(bookmark_is(&s, "https://example.com/page".to_string()));
    assert!(!bookmark_is(&s, "https://example.com/other".to_string()));
}

#[test]
fn add_uses_url_as_title_when_blank() {
    let mut s = empty_store();
    let b = bookmark_add_at(&mut s, "https://a.com".to_string(), Some("   ".to_string()), 5).unwrap();
    assert_eq!(b.title, "https://a.com");
    let c = bookmark_add_at(&mut s, "https://b.com".to_string(), None, 6).unwrap();
    assert_eq!(c.title, "https://b.com");
    assert_eq!(c.id, "bm-6-1");
}

#[test]
fn add_of_duplicate_returns_existing_and_changes_nothing() {
    let mut s = empty_store();
    let first = bookmark_add_at(&mut s, "https://example.com/".to_string(), None, 10).unwrap();
    let again = bookmark_add_at(&mut s, "HTTPS://EXAMPLE.COM#top".to_string(), Some("x".to_string()), 99).unwrap();
    assert_eq!(again.id, first.id);
    assert_eq!(again.created, 10);
    assert_eq!(s.items.len(), 1);
    assert_eq!(s.counter, 1);
}

#[test]
fn add_rejects_invalid_urls() {
    let mut s = empty_store();
    assert_eq!(bookmark_add_at(&mut s, "javascript:alert(1)".to_string(), None, 1).unwrap_err(), "Invalid URL");
    assert_eq!(bookmark_add(&mut s, "paketabs://localhost/".to_string(), None).unwrap_err(), "Invalid URL");
    assert!(s.items.is_empty());
    assert_eq!(s.counter, 0);
}

#[test]
fn add_with_clock_creates_an_entry() {
    let mut s = empty_store();
    let b = bookmark_add(&mut s, "https://example.com".to_string(), None).unwrap();
    assert!(b.id.starts_with("bm-"));
    assert!(b.id.ends_with("-0"));
    assert_eq!(b.created, b.updated);
    assert_eq!(bookmark_list(&s).len(), 1);
}

#[test]
fn remove_by_id_keeps_the_others_in_order() {
    let mut s = empty_store();
    s.items = vec![bm("a", "https://a.com"), bm("b", "https://b.com"), bm("a", "https://c.com"), bm("d", "https://d.com")];
    bookmark_remove(&mut s, "a".to_string());
    let ids: Vec<String> = bookmark_list(&s).into_iter().map(|b| b.id).collect();
    assert_eq!(ids, vec!["b".to_string(), "d".to_string()]);
}

#[test]
fn remove_by_url_unbookmarks_every_match() {
    let mut s = empty_store();
    s.items = vec![bm("a", "https://a.com/"), bm("b", "https://b.com"), bm("c", "HTTPS://A.COM#x")];
    bookmark_remove_url(&mut s, "https://a.com".to_string());
    assert!(!bookmark_is(&s, "https://a.com".to_string()));
    assert_eq!(s.items.len(), 1);
    assert_eq!(s.items[0].id, "b");
}

#[test]
fn update_edits_title_url_and_time() {
    let mut s = empty_store();
    s.items = vec![bm("a", "https://a.com"), bm("b", "https://b.com")];
    let u = bookmark_update_at(&mut s, "b".to_string(), "  ".to_string(), " https://c.com/x ".to_string(), 42).unwrap();
    assert_eq!(u.id, "b");
    assert_eq!(u.title, "https://c.com/x");
    assert_eq!(u.url, "https://c.com/x");
    assert_eq!(u.created, 1);
    assert_eq!(u.updated, 42);
    assert_eq!(s.items[1].url, "https://c.com/x");
    assert!(bookmark_is(&s, "https://c.com/x/".to_string()));
    let v = bookmark_update(&mut s, "a".to_string(), "Renamed".to_string(), "https://a.com".to_string()).unwrap();
    assert_eq!(v.title, "Renamed");
}

#[test]
fn update_reports_each_error() {
    let mut s = empty_store();
    s.items = vec![bm("a", "https://a.com"), bm("b", "https://b.com")];
    assert_eq!(
        bookmark_update_at(&mut s, "a".to_string(), "t".to_string(), "about:blank".to_string(), 1).unwrap_err(),
        "Invalid URL"
    );
    assert_eq!(
        bookmark_update_at(&mut s, "a".to_string(), "t".to_string(), "https://B.com/".to_string(), 1).unwrap_err(),
        "Another bookmark already uses that URL"
    );
    assert_eq!(
        bookmark_update_at(&mut s, "zz".to_string(), "t".to_string(), "https://z.com".to_string(), 1).unwrap_err(),
        "Bookmark not found"
    );
    assert_eq!(s.items[0].url, "https://a.com");
    assert_eq!(s.items[1].url, "https://b.com");
}

#[test]
fn load_drops_blank_ids_and_invalid_urls() {
    let parsed = vec![
        bm("a", "https://a.com"),
        bm("  ", "https://b.com"),
        bm("c", "javascript:alert(1)"),
        bm("d", "http://paketabs.localhost/"),
        bm("e", "file:///x"),
    ];
    let kept: Vec<String> = load(Some(parsed)).into_iter().map(|b| b.id).collect();
    assert_eq!(kept, vec!["a".to_string(), "e".to_string()]);
    assert!(load(None).is_empty());
}

#[test]
fn epoch_millis_truncates_and_defaults_to_zero() {
    assert_eq!(epoch_millis(Some(1_700_000_000_123)), 1_700_000_000_123);
    assert_eq!(epoch_millis(Some((1u128 << 64) + 5)), 5);
    assert_eq!(epoch_millis(None), 0);
}
