//! The local bookmark store: a flat, ordered list of bookmarks with
//! duplicate detection on the canonical form of their URLs.
//!
//! The store is a plain value; whoever owns it serialises access to it and
//! writes it to disk after each change.

use vstd::prelude::*;

use crate::paths::{join_file, joined};
use crate::seqs::{first_where, lemma_first_where_at, lemma_first_where_props};
use crate::text::{
    contains, has_prefix, has_substring, is_blank, is_ws, lemma_trim_idempotent, lemma_trim_shape,
    trim_end_char, trim_start,
    lower, lower_trimmed, push_decimal, push_str, decimal, starts_with, string_from, trim,
    trim_string,
};
use crate::urls::{
    host_or_empty, normalize_parsed, normalized, opt_chars, parse_trimmed, parses_as_web,
    port_suffix, query_suffix, url_parse, web_scheme,
};

verus! {

/// The file, inside the data directory, that holds the bookmarks.
pub const BOOKMARKS_FILE: &'static str = "pake-bookmarks.json";

/// The custom scheme that serves the bookmark manager page.
pub const MANAGER_SCHEME: &'static str = "pakebookmarks";

/// One bookmark.
#[derive(Debug)]
pub struct Bookmark {
    pub id: String,
    pub title: String,
    pub url: String,
    pub created: u64,
    pub updated: u64,
}

/// The mathematical view of a [`Bookmark`].
pub struct BookmarkView {
    pub id: Seq<char>,
    pub title: Seq<char>,
    pub url: Seq<char>,
    pub created: u64,
    pub updated: u64,
}

impl View for Bookmark {
    type V = BookmarkView;

    open spec fn view(&self) -> BookmarkView {
        BookmarkView {
            id: self.id@,
            title: self.title@,
            url: self.url@,
            created: self.created,
            updated: self.updated,
        }
    }
}

impl Clone for Bookmark {
    fn clone(&self) -> (r: Self)
        ensures
            r == *self,
    {
        Bookmark {
            id: self.id.clone(),
            title: self.title.clone(),
            url: self.url.clone(),
            created: self.created,
            updated: self.updated,
        }
    }
}

/// The bookmark store: the data directory, the ordered bookmarks, and the
/// counter that makes ids created in the same millisecond distinct.
pub struct BookmarksState {
    pub dir: std::path::PathBuf,
    pub items: Vec<Bookmark>,
    pub counter: u64,
}

/// The mathematical view of a [`BookmarksState`].
pub struct BookmarksView {
    pub dir: std::path::PathBuf,
    pub items: Seq<BookmarkView>,
    pub counter: u64,
}

/// The views of a sequence of bookmarks.
pub open spec fn items_view(s: Seq<Bookmark>) -> Seq<BookmarkView> {
    s.map_values(|b: Bookmark| b@)
}

impl View for BookmarksState {
    type V = BookmarksView;

    open spec fn view(&self) -> BookmarksView {
        BookmarksView { dir: self.dir, items: items_view(self.items@), counter: self.counter }
    }
}

impl BookmarksState {
    /// The path of the bookmarks file: `dir.join(BOOKMARKS_FILE)`.
    pub fn path(&self) -> (r: std::path::PathBuf)
        ensures
            r == joined(self.dir, BOOKMARKS_FILE@),
    {
        join_file(&self.dir, BOOKMARKS_FILE)
    }
}

// ---------------------------------------------------------------------------
// Time
// ---------------------------------------------------------------------------

/// The standard library's wall-clock time, carried through opaquely.
#[verifier::external_type_specification]
#[verifier::external_body]
pub struct ExSystemTime(std::time::SystemTime);

/// `SystemTime::now()`. Nothing is claimed of the value: it is the machine's clock.
#[verifier::external_body]
fn system_now() -> std::time::SystemTime {
    std::time::SystemTime::now()
}

/// `t.duration_since(UNIX_EPOCH)`, with the error (a clock before the epoch)
/// turned into `None`. Nothing is claimed of the value.
#[verifier::external_body]
fn duration_since_epoch(t: &std::time::SystemTime) -> Option<std::time::Duration> {
    t.duration_since(std::time::UNIX_EPOCH).ok()
}

/// `Duration::as_millis`. Nothing is claimed of the value: `Duration` is
/// opaque here.
#[verifier::external_body]
fn duration_millis(d: &std::time::Duration) -> u128 {
    d.as_millis()
}

/// Milliseconds since the Unix epoch, cut to 64 bits, or 0 for a clock before
/// the epoch (`None`).
pub fn epoch_millis(ms: Option<u128>) -> (r: u64)
    ensures
        r == match ms {
            Some(m) => m as u64,
            None => 0u64,
        },
{
    match ms {
        Some(m) => {
            #[verifier::truncate]
            (m as u64)
        },
        None => 0,
    }
}

/// The current time in milliseconds since the Unix epoch, truncated to 64
/// bits, or 0 where the clock is before the epoch. The clock reading itself
/// is the machine's; the conversion is [`epoch_millis`].
fn now_millis() -> u64 {
    let ms = match duration_since_epoch(&system_now()) {
        Some(d) => Some(duration_millis(&d)),
        None => None,
    };
    epoch_millis(ms)
}

// ---------------------------------------------------------------------------
// URLs
// ---------------------------------------------------------------------------

/// Pake's own pages (tab strip, bookmark manager), in their scheme form and in
/// the `<scheme>.localhost` host form that they take on Windows.
pub open spec fn is_internal_page_spec(url: Seq<char>) -> bool {
    let l = lower(trim(url));
    ||| starts_with(l, "paketabs:"@)
    ||| starts_with(l, "pakebookmarks:"@)
    ||| contains(l, "paketabs.localhost"@)
    ||| contains(l, "pakebookmarks.localhost"@)
}

/// A bookmarkable URL: not an internal page, and its trimmed text parses
/// with scheme `http`, `https` or `file`.
pub open spec fn valid_url(url: Seq<char>) -> bool {
    !is_internal_page_spec(url) && parses_as_web(url)
}

fn is_internal_page(url: &str) -> (r: bool)
    ensures
        r == is_internal_page_spec(url@),
{
    let lower = lower_trimmed(url);
    has_prefix(&lower, "paketabs:") || has_prefix(&lower, "pakebookmarks:") || has_substring(
        &lower,
        "paketabs.localhost",
    ) || has_substring(&lower, "pakebookmarks.localhost")
}

/// Whether `url` may be bookmarked or opened.
pub fn is_valid_url(url: &str) -> (r: bool)
    ensures
        r == valid_url(url@),
{
    if is_internal_page(url) {
        return false;
    }
    let parsed = parse_trimmed(url);
    web_scheme(&parsed)
}

/// The canonical form of `url` used for duplicate detection: lower-case scheme
/// and host, no trailing slash on the path, fragment dropped, query kept.
pub fn normalize_url(url: &str) -> (r: String)
    ensures
        r@ == normalized(url@),
{
    let parsed = parse_trimmed(url);
    normalize_parsed(url, &parsed)
}

// ---------------------------------------------------------------------------
// The store's specification
// ---------------------------------------------------------------------------

/// The bookmark's URL has the same canonical form as `url`.
pub open spec fn matches_url(url: Seq<char>) -> spec_fn(BookmarkView) -> bool {
    |b: BookmarkView| normalized(b.url) == normalized(url)
}

/// The bookmark's URL has another canonical form than `url`.
pub open spec fn differs_url(url: Seq<char>) -> spec_fn(BookmarkView) -> bool {
    |b: BookmarkView| normalized(b.url) != normalized(url)
}

/// The bookmark has the id `id`.
pub open spec fn has_id(id: Seq<char>) -> spec_fn(BookmarkView) -> bool {
    |b: BookmarkView| b.id == id
}

/// The bookmark has another id than `id`.
pub open spec fn other_id(id: Seq<char>) -> spec_fn(BookmarkView) -> bool {
    |b: BookmarkView| b.id != id
}

/// A bookmark survives loading: a non-blank id and a valid URL.
pub open spec fn loadable() -> spec_fn(BookmarkView) -> bool {
    |b: BookmarkView| trim(b.id).len() > 0 && valid_url(b.url)
}

/// Some bookmark has the canonical form of `url`.
pub open spec fn is_bookmarked(items: Seq<BookmarkView>, url: Seq<char>) -> bool {
    exists|i: int| 0 <= i < items.len() && #[trigger] normalized(items[i].url) == normalized(url)
}

/// No two bookmarks share a canonical URL.
pub open spec fn distinct_urls(items: Seq<BookmarkView>) -> bool {
    forall|i: int, j: int|
        0 <= i < j < items.len() ==> normalized(#[trigger] items[i].url) != normalized(
            #[trigger] items[j].url,
        )
}

/// Every bookmark's URL is a valid one.
pub open spec fn all_valid(items: Seq<BookmarkView>) -> bool {
    forall|i: int| 0 <= i < items.len() ==> valid_url(#[trigger] items[i].url)
}

/// The id of a bookmark created at `now` with counter value `n`: `bm-<now>-<n>`.
pub open spec fn bookmark_id(now: u64, n: u64) -> Seq<char> {
    "bm-"@ + decimal(now as nat) + "-"@ + decimal(n as nat)
}

/// The counter after one increment, wrapping as `AtomicU64::fetch_add` does.
pub open spec fn next_counter(n: u64) -> u64 {
    if n == u64::MAX {
        0
    } else {
        (n + 1) as u64
    }
}

/// The title of a new bookmark: the trimmed title, or the trimmed URL when the
/// title is missing or blank.
pub open spec fn new_title(title: Option<Seq<char>>, url: Seq<char>) -> Seq<char> {
    match title {
        Some(t) => if trim(t).len() > 0 {
            trim(t)
        } else {
            trim(url)
        },
        None => trim(url),
    }
}

/// The view of a result that carries a bookmark or a message.
pub open spec fn result_view(r: Result<Bookmark, String>) -> Result<BookmarkView, Seq<char>> {
    match r {
        Ok(b) => Ok(b@),
        Err(e) => Err(e@),
    }
}

/// Adding `url` with `title` at time `now`: the new store and the result.
pub open spec fn add_outcome(
    st: BookmarksView,
    url: Seq<char>,
    title: Option<Seq<char>>,
    now: u64,
) -> (BookmarksView, Result<BookmarkView, Seq<char>>) {
    if !valid_url(url) {
        (st, Err("Invalid URL"@))
    } else {
        let i = first_where(st.items, matches_url(url));
        if i >= 0 {
            (st, Ok(st.items[i]))
        } else {
            let b = BookmarkView {
                id: bookmark_id(now, st.counter),
                title: new_title(title, url),
                url: trim(url),
                created: now,
                updated: now,
            };
            (BookmarksView { items: st.items.push(b), counter: next_counter(st.counter), ..st }, Ok(b))
        }
    }
}

/// Some other bookmark than `id` has the canonical form of `url`.
pub open spec fn url_taken_by_other(items: Seq<BookmarkView>, id: Seq<char>, url: Seq<char>) -> bool {
    exists|j: int|
        0 <= j < items.len() && items[j].id != id && #[trigger] normalized(items[j].url)
            == normalized(url)
}

/// Editing bookmark `id` to `title` and `url` at time `now`: the new store and the result.
pub open spec fn update_outcome(
    st: BookmarksView,
    id: Seq<char>,
    title: Seq<char>,
    url: Seq<char>,
    now: u64,
) -> (BookmarksView, Result<BookmarkView, Seq<char>>) {
    if !valid_url(url) {
        (st, Err("Invalid URL"@))
    } else if url_taken_by_other(st.items, id, url) {
        (st, Err("Another bookmark already uses that URL"@))
    } else {
        let i = first_where(st.items, has_id(id));
        if i < 0 {
            (st, Err("Bookmark not found"@))
        } else {
            let b = BookmarkView {
                title: if trim(title).len() == 0 {
                    trim(url)
                } else {
                    trim(title)
                },
                url: trim(url),
                updated: now,
                ..st.items[i]
            };
            (BookmarksView { items: st.items.update(i, b), ..st }, Ok(b))
        }
    }
}

// ---------------------------------------------------------------------------
// Store operations
// ---------------------------------------------------------------------------

/// The bookmarks that survive loading from the parsed file: those with a
/// non-blank id and a valid URL, in order. A file that could not be read or
/// parsed gives an empty list.
pub fn load(parsed: Option<Vec<Bookmark>>) -> (r: Vec<Bookmark>)
    ensures
        items_view(r@) == match parsed {
            Some(v) => items_view(v@).filter(loadable()),
            None => Seq::<BookmarkView>::empty(),
        },
{
    match parsed {
        None => {
            let r: Vec<Bookmark> = Vec::new();
            assert(items_view(r@) =~= Seq::<BookmarkView>::empty());
            r
        },
        Some(v) => {
            let mut out: Vec<Bookmark> = Vec::new();
            let mut i: usize = 0;
            assert(items_view(v@).subrange(0, 0) =~= Seq::<BookmarkView>::empty());
            assert(items_view(out@) =~= Seq::<BookmarkView>::empty());
            proof {
                reveal(Seq::filter);
            }
            while i < v.len()
                invariant
                    i <= v.len(),
                    items_view(out@) == items_view(v@).subrange(0, i as int).filter(loadable()),
                decreases v.len() - i,
            {
                let b = &v[i];
                let keep = !is_blank(b.id.as_str()) && is_valid_url(b.url.as_str());
                proof {
                    let pre = items_view(v@).subrange(0, i as int);
                    assert(items_view(v@).subrange(0, i + 1) =~= pre.push(b@));
                    pre.lemma_filter_push(b@, loadable());
                }
                if keep {
                    let ghost prev = out@;
                    out.push(b.clone());
                    assert(items_view(out@) =~= items_view(prev).push(b@));
                }
                i = i + 1;
            }
            assert(items_view(v@).subrange(0, v@.len() as int) =~= items_view(v@));
            out
        },
    }
}

/// All bookmarks, in order.
pub fn bookmark_list(state: &BookmarksState) -> (r: Vec<Bookmark>)
    ensures
        items_view(r@) == state@.items,
{
    let mut out: Vec<Bookmark> = Vec::new();
    let mut i: usize = 0;
    while i < state.items.len()
        invariant
            i <= state.items.len(),
            items_view(out@) == items_view(state.items@).subrange(0, i as int),
        decreases state.items.len() - i,
    {
        let ghost prev = out@;
        out.push(state.items[i].clone());
        assert(items_view(out@) =~= items_view(state.items@).subrange(0, i + 1)) by {
            assert(items_view(out@) =~= items_view(prev).push(state.items@[i as int]@));
        }
        i = i + 1;
    }
    assert(items_view(state.items@).subrange(0, i as int) =~= items_view(state.items@));
    out
}

/// The index of the first bookmark whose canonical URL is `target`, the
/// canonical form of `url`.
fn find_url(items: &Vec<Bookmark>, url: &str, target: &String) -> (r: Option<usize>)
    requires
        target@ == normalized(url@),
    ensures
        match r {
            Some(i) => i < items.len() && i as int == first_where(items_view(items@), matches_url(url@)),
            None => first_where(items_view(items@), matches_url(url@)) == -1,
        },
{
    let mut i: usize = 0;
    while i < items.len()
        invariant
            i <= items.len(),
            target@ == normalized(url@),
            forall|j: int| 0 <= j < i ==> !matches_url(url@)(#[trigger] items_view(items@)[j]),
        decreases items.len() - i,
    {
        let c = normalize_url(items[i].url.as_str());
        if c == *target {
            proof {
                lemma_first_where_at(items_view(items@), matches_url(url@), i as int);
            }
            return Some(i);
        }
        i = i + 1;
    }
    proof {
        lemma_first_where_at(items_view(items@), matches_url(url@), i as int);
    }
    None
}

/// The index of the first bookmark with id `id`.
fn find_id(items: &Vec<Bookmark>, id: &String) -> (r: Option<usize>)
    ensures
        match r {
            Some(i) => i < items.len() && i as int == first_where(items_view(items@), has_id(id@)),
            None => first_where(items_view(items@), has_id(id@)) == -1,
        },
{
    let mut i: usize = 0;
    while i < items.len()
        invariant
            i <= items.len(),
            forall|j: int| 0 <= j < i ==> !has_id(id@)(#[trigger] items_view(items@)[j]),
        decreases items.len() - i,
    {
        if items[i].id == *id {
            proof {
                lemma_first_where_at(items_view(items@), has_id(id@), i as int);
            }
            return Some(i);
        }
        i = i + 1;
    }
    proof {
        lemma_first_where_at(items_view(items@), has_id(id@), i as int);
    }
    None
}

/// Whether some bookmark has the canonical form of `url`.
pub fn bookmark_is(state: &BookmarksState, url: String) -> (r: bool)
    ensures
        r == is_bookmarked(state@.items, url@),
{
    let target = normalize_url(url.as_str());
    let found = find_url(&state.items, url.as_str(), &target);
    proof {
        lemma_first_where_props(items_view(state.items@), matches_url(url@));
        if found is None {
            assert forall|i: int| 0 <= i < state@.items.len() implies #[trigger] normalized(
                state@.items[i].url,
            ) != normalized(url@) by {
                assert(!matches_url(url@)(state@.items[i]));
            }
        } else {
            let i = first_where(items_view(state.items@), matches_url(url@));
            assert(matches_url(url@)(state@.items[i]));
        }
    }
    found.is_some()
}

/// Bookmarks `url` at time `now` under `title` (the trimmed URL where the
/// title is missing or blank). An invalid URL is refused; a URL whose
/// canonical form is already bookmarked gives back that bookmark and leaves
/// the store unchanged.
pub fn bookmark_add_at(state: &mut BookmarksState, url: String, title: Option<String>, now: u64) -> (r: Result<Bookmark, String>)
    ensures
        (final(state)@, result_view(r)) == add_outcome(old(state)@, url@, opt_chars(title), now),
{
    if !is_valid_url(url.as_str()) {
        return Err(string_from("Invalid URL"));
    }
    let target = normalize_url(url.as_str());
    match find_url(&state.items, url.as_str(), &target) {
        Some(i) => {
            return Ok(state.items[i].clone());
        },
        None => {},
    }
    let n = state.counter;
    state.counter = if n == u64::MAX {
        0
    } else {
        n + 1
    };
    let new_title = match title {
        Some(t) => {
            if is_blank(t.as_str()) {
                trim_string(url.as_str())
            } else {
                trim_string(t.as_str())
            }
        },
        None => trim_string(url.as_str()),
    };
    let mut id = string_from("bm-");
    push_decimal(&mut id, now);
    push_str(&mut id, "-");
    push_decimal(&mut id, n);
    let bookmark = Bookmark {
        id,
        title: new_title,
        url: trim_string(url.as_str()),
        created: now,
        updated: now,
    };
    let ghost prev = state.items@;
    state.items.push(bookmark.clone());
    assert(items_view(state.items@) =~= items_view(prev).push(bookmark@));
    Ok(bookmark)
}

/// Bookmarks `url` under `title` at the current time; see [`bookmark_add_at`].
pub fn bookmark_add(state: &mut BookmarksState, url: String, title: Option<String>) -> (r: Result<Bookmark, String>)
    ensures
        exists|now: u64|
            (final(state)@, result_view(r)) == #[trigger] add_outcome(old(state)@, url@, opt_chars(title), now),
{
    let now = now_millis();
    bookmark_add_at(state, url, title, now)
}

/// Removes every bookmark with id `id`; the others keep their order.
pub fn bookmark_remove(state: &mut BookmarksState, id: String)
    ensures
        final(state)@ == (BookmarksView { items: old(state)@.items.filter(other_id(id@)), ..old(state)@ }),
{
    let mut kept: Vec<Bookmark> = Vec::new();
    let mut i: usize = 0;
    assert(items_view(kept@) =~= items_view(state.items@).subrange(0, 0).filter(other_id(id@))) by {
        reveal(Seq::filter);
    }
    while i < state.items.len()
        invariant
            i <= state.items.len(),
            items_view(kept@) == items_view(state.items@).subrange(0, i as int).filter(other_id(id@)),
        decreases state.items.len() - i,
    {
        let b = &state.items[i];
        proof {
            let pre = items_view(state.items@).subrange(0, i as int);
            assert(items_view(state.items@).subrange(0, i + 1) =~= pre.push(b@));
            pre.lemma_filter_push(b@, other_id(id@));
        }
        if b.id != id {
            let ghost prev = kept@;
            kept.push(b.clone());
            assert(items_view(kept@) =~= items_view(prev).push(b@));
        }
        i = i + 1;
    }
    assert(items_view(state.items@).subrange(0, i as int) =~= items_view(state.items@));
    state.items = kept;
}

/// Removes every bookmark whose URL has the canonical form of `url`; the
/// others keep their order.
pub fn bookmark_remove_url(state: &mut BookmarksState, url: String)
    ensures
        final(state)@ == (BookmarksView { items: old(state)@.items.filter(differs_url(url@)), ..old(state)@ }),
{
    let target = normalize_url(url.as_str());
    let mut kept: Vec<Bookmark> = Vec::new();
    let mut i: usize = 0;
    assert(items_view(kept@) =~= items_view(state.items@).subrange(0, 0).filter(differs_url(url@))) by {
        reveal(Seq::filter);
    }
    while i < state.items.len()
        invariant
            i <= state.items.len(),
            target@ == normalized(url@),
            items_view(kept@) == items_view(state.items@).subrange(0, i as int).filter(differs_url(url@)),
        decreases state.items.len() - i,
    {
        let b = &state.items[i];
        proof {
            let pre = items_view(state.items@).subrange(0, i as int);
            assert(items_view(state.items@).subrange(0, i + 1) =~= pre.push(b@));
            pre.lemma_filter_push(b@, differs_url(url@));
        }
        let c = normalize_url(b.url.as_str());
        if c != target {
            let ghost prev = kept@;
            kept.push(b.clone());
            assert(items_view(kept@) =~= items_view(prev).push(b@));
        }
        i = i + 1;
    }
    assert(items_view(state.items@).subrange(0, i as int) =~= items_view(state.items@));
    state.items = kept;
}

/// Whether some bookmark other than `id` has the canonical URL `target`,
/// the canonical form of `url`.
fn url_used_elsewhere(items: &Vec<Bookmark>, id: &String, url: &str, target: &String) -> (r: bool)
    requires
        target@ == normalized(url@),
    ensures
        r == url_taken_by_other(items_view(items@), id@, url@),
{
    let mut i: usize = 0;
    while i < items.len()
        invariant
            i <= items.len(),
            target@ == normalized(url@),
            forall|j: int|
                0 <= j < i ==> !(items_view(items@)[j].id != id@ && #[trigger] normalized(
                    items_view(items@)[j].url,
                ) == normalized(url@)),
        decreases items.len() - i,
    {
        if items[i].id != *id {
            let c = normalize_url(items[i].url.as_str());
            if c == *target {
                assert(items_view(items@)[i as int].id != id@ && normalized(items_view(items@)[i as int].url) == normalized(url@));
                return true;
            }
        }
        i = i + 1;
    }
    false
}

/// Edits bookmark `id` at time `now`: the trimmed URL, and the trimmed title
/// (the trimmed URL where the title is blank). Refused when the URL is
/// invalid, when another bookmark already has its canonical form, or when no
/// bookmark has the id.
pub fn bookmark_update_at(
    state: &mut BookmarksState,
    id: String,
    title: String,
    url: String,
    now: u64,
) -> (r: Result<Bookmark, String>)
    ensures
        (final(state)@, result_view(r)) == update_outcome(old(state)@, id@, title@, url@, now),
{
    if !is_valid_url(url.as_str()) {
        return Err(string_from("Invalid URL"));
    }
    let target = normalize_url(url.as_str());
    if url_used_elsewhere(&state.items, &id, url.as_str(), &target) {
        return Err(string_from("Another bookmark already uses that URL"));
    }
    let i = match find_id(&state.items, &id) {
        Some(i) => i,
        None => {
            return Err(string_from("Bookmark not found"));
        },
    };
    let new_title = if is_blank(title.as_str()) {
        trim_string(url.as_str())
    } else {
        trim_string(title.as_str())
    };
    let old_b = &state.items[i];
    let updated = Bookmark {
        id: old_b.id.clone(),
        title: new_title,
        url: trim_string(url.as_str()),
        created: old_b.created,
        updated: now,
    };
    let ghost prev = state.items@;
    state.items.set(i, updated.clone());
    assert(items_view(state.items@) =~= items_view(prev).update(i as int, updated@));
    Ok(updated)
}

/// Edits bookmark `id` at the current time; see [`bookmark_update_at`].
pub fn bookmark_update(state: &mut BookmarksState, id: String, title: String, url: String) -> (r: Result<Bookmark, String>)
    ensures
        exists|now: u64|
            (final(state)@, result_view(r)) == #[trigger] update_outcome(old(state)@, id@, title@, url@, now),
{
    let now = now_millis();
    bookmark_update_at(state, id, title, url, now)
}

// ---------------------------------------------------------------------------
// Laws
// ---------------------------------------------------------------------------

/// Trimming a URL first changes neither its canonical form nor its validity.
pub proof fn lemma_trimmed_url_same(url: Seq<char>)
    ensures
        normalized(trim(url)) == normalized(url),
        valid_url(trim(url)) == valid_url(url),
{
    lemma_trim_idempotent(url);
}

/// After a successful add, the URL is bookmarked.
pub proof fn law_add_then_bookmarked(st: BookmarksView, url: Seq<char>, title: Option<Seq<char>>, now: u64)
    requires
        add_outcome(st, url, title, now).1 is Ok,
    ensures
        is_bookmarked(add_outcome(st, url, title, now).0.items, url),
{
    lemma_first_where_props(st.items, matches_url(url));
    lemma_trimmed_url_same(url);
    let after = add_outcome(st, url, title, now).0.items;
    let i = first_where(st.items, matches_url(url));
    if i >= 0 {
        assert(matches_url(url)(st.items[i]));
        assert(normalized(after[i].url) == normalized(url));
    } else {
        assert(normalized(after[st.items.len() as int].url) == normalized(url));
    }
}

/// Adding never makes two bookmarks share a canonical URL.
pub proof fn law_add_keeps_urls_distinct(st: BookmarksView, url: Seq<char>, title: Option<Seq<char>>, now: u64)
    requires
        distinct_urls(st.items),
    ensures
        distinct_urls(add_outcome(st, url, title, now).0.items),
{
    lemma_first_where_props(st.items, matches_url(url));
    lemma_trimmed_url_same(url);
    let after = add_outcome(st, url, title, now).0.items;
    if valid_url(url) && first_where(st.items, matches_url(url)) < 0 {
        assert forall|i: int, j: int| 0 <= i < j < after.len() implies normalized(
            #[trigger] after[i].url,
        ) != normalized(#[trigger] after[j].url) by {
            if j == st.items.len() {
                assert(!matches_url(url)(st.items[i]));
            } else {
                assert(after[i] == st.items[i] && after[j] == st.items[j]);
            }
        }
    }
}

/// Adding a URL that is already bookmarked (or adding the same URL twice)
/// changes nothing and answers with the bookmark that has its canonical form.
pub proof fn law_add_is_idempotent(
    st: BookmarksView,
    url: Seq<char>,
    title: Option<Seq<char>>,
    now: u64,
    title2: Option<Seq<char>>,
    now2: u64,
)
    requires
        add_outcome(st, url, title, now).1 is Ok,
    ensures
        add_outcome(add_outcome(st, url, title, now).0, url, title2, now2) == add_outcome(
            st,
            url,
            title,
            now,
        ),
{
    lemma_first_where_props(st.items, matches_url(url));
    lemma_trimmed_url_same(url);
    let (s1, r1) = add_outcome(st, url, title, now);
    let p = matches_url(url);
    if first_where(st.items, p) < 0 {
        let n = st.items.len() as int;
        assert forall|j: int| 0 <= j < n implies !p(#[trigger] s1.items[j]) by {
            assert(s1.items[j] == st.items[j]);
        }
        assert(p(s1.items[n]));
        lemma_first_where_at(s1.items, p, n);
    }
}

/// Adding keeps every stored URL valid.
pub proof fn law_add_keeps_valid(st: BookmarksView, url: Seq<char>, title: Option<Seq<char>>, now: u64)
    requires
        all_valid(st.items),
    ensures
        all_valid(add_outcome(st, url, title, now).0.items),
{
    lemma_trimmed_url_same(url);
    let after = add_outcome(st, url, title, now).0.items;
    assert forall|i: int| 0 <= i < after.len() implies valid_url(#[trigger] after[i].url) by {
        if i < st.items.len() {
            assert(after[i] == st.items[i]);
        }
    }
}

/// After removing a URL, no bookmark has its canonical form.
pub proof fn law_remove_url_unbookmarks(items: Seq<BookmarkView>, url: Seq<char>)
    ensures
        !is_bookmarked(items.filter(differs_url(url)), url),
{
    let kept = items.filter(differs_url(url));
    assert forall|i: int| 0 <= i < kept.len() implies #[trigger] normalized(kept[i].url)
        != normalized(url) by {
        items.lemma_filter_pred(differs_url(url), i);
    }
}

/// After removing an id, no bookmark has it, and every bookmark with another
/// id is still there.
pub proof fn law_remove_id(items: Seq<BookmarkView>, id: Seq<char>)
    ensures
        forall|i: int|
            0 <= i < items.filter(other_id(id)).len() ==> (#[trigger] items.filter(other_id(id))[i]).id
                != id,
        forall|i: int|
            0 <= i < items.len() && items[i].id != id ==> items.filter(other_id(id)).contains(
                #[trigger] items[i],
            ),
{
    assert forall|i: int| 0 <= i < items.filter(other_id(id)).len() implies (
    #[trigger] items.filter(other_id(id))[i]).id != id by {
        items.lemma_filter_pred(other_id(id), i);
    }
    assert forall|i: int| 0 <= i < items.len() && items[i].id != id implies items.filter(
        other_id(id),
    ).contains(#[trigger] items[i]) by {
        items.lemma_filter_contains(other_id(id), i);
    }
}

/// Removing bookmarks keeps canonical URLs distinct.
pub proof fn law_filter_keeps_urls_distinct(items: Seq<BookmarkView>, p: spec_fn(BookmarkView) -> bool)
    requires
        distinct_urls(items),
    ensures
        distinct_urls(items.filter(p)),
    decreases items.len(),
{
    reveal(Seq::filter);
    if items.len() > 0 {
        let rest = items.drop_last();
        assert(distinct_urls(rest)) by {
            assert forall|i: int, j: int| 0 <= i < j < rest.len() implies normalized(
                #[trigger] rest[i].url,
            ) != normalized(#[trigger] rest[j].url) by {
                assert(rest[i] == items[i] && rest[j] == items[j]);
            }
        }
        law_filter_keeps_urls_distinct(rest, p);
        let f = rest.filter(p);
        if p(items.last()) {
            let g = f.push(items.last());
            assert forall|i: int, j: int| 0 <= i < j < g.len() implies normalized(
                #[trigger] g[i].url,
            ) != normalized(#[trigger] g[j].url) by {
                if j == f.len() {
                    assert(f.contains(g[i]));
                    rest.lemma_filter_contains_rev(p, g[i]);
                    let k = choose|k: int| 0 <= k < rest.len() && rest[k] == g[i];
                    assert(items[k] == rest[k]);
                    assert(normalized(items[k].url) != normalized(items[items.len() - 1].url));
                } else {
                    assert(g[i] == f[i] && g[j] == f[j]);
                }
            }
        }
    }
}

/// Removing bookmarks keeps every stored URL valid.
pub proof fn law_filter_keeps_valid(items: Seq<BookmarkView>, p: spec_fn(BookmarkView) -> bool)
    requires
        all_valid(items),
    ensures
        all_valid(items.filter(p)),
{
    let f = items.filter(p);
    assert forall|i: int| 0 <= i < f.len() implies valid_url(#[trigger] f[i].url) by {
        assert(f.contains(f[i]));
        items.lemma_filter_contains_rev(p, f[i]);
        let k = choose|k: int| 0 <= k < items.len() && items[k] == f[i];
        assert(valid_url(items[k].url));
    }
}

/// Loading keeps only valid URLs and non-blank ids.
pub proof fn law_load_is_valid(items: Seq<BookmarkView>)
    ensures
        all_valid(items.filter(loadable())),
        forall|i: int|
            0 <= i < items.filter(loadable()).len() ==> trim(
                (#[trigger] items.filter(loadable())[i]).id,
            ).len() > 0,
{
    let f = items.filter(loadable());
    assert forall|i: int| 0 <= i < f.len() implies valid_url(#[trigger] f[i].url) && trim(
        f[i].id,
    ).len() > 0 by {
        items.lemma_filter_pred(loadable(), i);
    }
}

/// After a successful edit, the edited bookmark carries the trimmed URL and
/// the URL is bookmarked.
pub proof fn law_update_then_bookmarked(st: BookmarksView, id: Seq<char>, title: Seq<char>, url: Seq<char>, now: u64)
    requires
        update_outcome(st, id, title, url, now).1 is Ok,
    ensures
        is_bookmarked(update_outcome(st, id, title, url, now).0.items, url),
        update_outcome(st, id, title, url, now).1->Ok_0.url == trim(url),
        update_outcome(st, id, title, url, now).1->Ok_0.id == id,
{
    lemma_first_where_props(st.items, has_id(id));
    lemma_trimmed_url_same(url);
    let i = first_where(st.items, has_id(id));
    let after = update_outcome(st, id, title, url, now).0.items;
    assert(has_id(id)(st.items[i]));
    assert(normalized(after[i].url) == normalized(url));
}

/// Editing never makes two bookmarks share a canonical URL, provided no other
/// bookmark that carries the same id already has the new URL's canonical form.
pub proof fn law_update_keeps_urls_distinct(st: BookmarksView, id: Seq<char>, title: Seq<char>, url: Seq<char>, now: u64)
    requires
        distinct_urls(st.items),
        forall|j: int|
            0 <= j < st.items.len() && j != first_where(st.items, has_id(id)) && st.items[j].id == id
                ==> #[trigger] normalized(st.items[j].url) != normalized(url),
    ensures
        distinct_urls(update_outcome(st, id, title, url, now).0.items),
{
    lemma_first_where_props(st.items, has_id(id));
    lemma_trimmed_url_same(url);
    let k = first_where(st.items, has_id(id));
    let after = update_outcome(st, id, title, url, now).0.items;
    if update_outcome(st, id, title, url, now).1 is Ok {
        assert forall|i: int, j: int| 0 <= i < j < after.len() implies normalized(
            #[trigger] after[i].url,
        ) != normalized(#[trigger] after[j].url) by {
            if i == k {
                assert(after[j] == st.items[j]);
                if st.items[j].id != id {
                    assert(!(st.items[j].id != id && normalized(st.items[j].url) == normalized(url)));
                }
            } else if j == k {
                assert(after[i] == st.items[i]);
                if st.items[i].id != id {
                    assert(!(st.items[i].id != id && normalized(st.items[i].url) == normalized(url)));
                }
            } else {
                assert(after[i] == st.items[i] && after[j] == st.items[j]);
            }
        }
    }
}

/// Editing keeps every stored URL valid.
pub proof fn law_update_keeps_valid(st: BookmarksView, id: Seq<char>, title: Seq<char>, url: Seq<char>, now: u64)
    requires
        all_valid(st.items),
    ensures
        all_valid(update_outcome(st, id, title, url, now).0.items),
{
    lemma_first_where_props(st.items, has_id(id));
    lemma_trimmed_url_same(url);
    let after = update_outcome(st, id, title, url, now).0.items;
    let k = first_where(st.items, has_id(id));
    assert forall|i: int| 0 <= i < after.len() implies valid_url(#[trigger] after[i].url) by {
        if update_outcome(st, id, title, url, now).1 is Ok && i != k {
            assert(after[i] == st.items[i]);
        }
    }
}

/// `t` is a suffix of `s`.
pub open spec fn ends_with(s: Seq<char>, t: Seq<char>) -> bool {
    t.len() <= s.len() && s.subrange(s.len() - t.len(), s.len() as int) == t
}

/// The canonical form keeps the parsed path and query exactly as parsed
/// (letter case included): where the path does not end in `/`, the canonical
/// form ends with the path followed by `?` and the query, if any.
pub proof fn law_canonical_keeps_path_and_query(url: Seq<char>)
    requires
        url_parse(trim(url)) is Some,
        url_parse(trim(url))->Some_0.path.len() == 0 || url_parse(trim(url))->Some_0.path.last()
            != '/',
    ensures
        ends_with(
            normalized(url),
            url_parse(trim(url))->Some_0.path + match url_parse(trim(url))->Some_0.query {
                Some(q) => seq!['?'] + q,
                None => Seq::<char>::empty(),
            },
        ),
{
    let p = url_parse(trim(url))->Some_0;
    let tail = p.path + match p.query {
        Some(q) => seq!['?'] + q,
        None => Seq::<char>::empty(),
    };
    assert(trim_end_char(p.path, '/') == p.path);
    let head = lower(p.scheme) + "://"@ + lower(host_or_empty(p.host)) + port_suffix(p.port);
    assert(tail =~= p.path + query_suffix(p.query));
    assert(normalized(url) =~= head + tail);
    assert((head + tail).subrange(head.len() as int, (head + tail).len() as int) =~= tail);
}

/// Two URLs that parse to the same scheme, host, port and query but to
/// different paths (neither ending in `/`; say, differing only in letter
/// case) have different canonical forms, so neither is taken for a duplicate
/// of the other.
pub proof fn law_canonical_tells_paths_apart(u1: Seq<char>, u2: Seq<char>)
    requires
        url_parse(trim(u1)) is Some,
        url_parse(trim(u2)) is Some,
        url_parse(trim(u1))->Some_0.scheme == url_parse(trim(u2))->Some_0.scheme,
        url_parse(trim(u1))->Some_0.host == url_parse(trim(u2))->Some_0.host,
        url_parse(trim(u1))->Some_0.port == url_parse(trim(u2))->Some_0.port,
        url_parse(trim(u1))->Some_0.query == url_parse(trim(u2))->Some_0.query,
        url_parse(trim(u1))->Some_0.path != url_parse(trim(u2))->Some_0.path,
        url_parse(trim(u1))->Some_0.path.len() == 0 || url_parse(trim(u1))->Some_0.path.last() != '/',
        url_parse(trim(u2))->Some_0.path.len() == 0 || url_parse(trim(u2))->Some_0.path.last() != '/',
    ensures
        normalized(u1) != normalized(u2),
{
    let p1 = url_parse(trim(u1))->Some_0;
    let p2 = url_parse(trim(u2))->Some_0;
    assert(trim_end_char(p1.path, '/') == p1.path);
    assert(trim_end_char(p2.path, '/') == p2.path);
    let head = lower(p1.scheme) + "://"@ + lower(host_or_empty(p1.host)) + port_suffix(p1.port);
    let q = query_suffix(p1.query);
    assert(normalized(u1) =~= head + p1.path + q);
    assert(normalized(u2) =~= head + p2.path + q);
    if normalized(u1) == normalized(u2) {
        let n1 = head + p1.path + q;
        let n2 = head + p2.path + q;
        assert(p1.path.len() == p2.path.len());
        assert(n1.subrange(head.len() as int, (head.len() + p1.path.len()) as int) =~= p1.path);
        assert(n2.subrange(head.len() as int, (head.len() + p2.path.len()) as int) =~= p2.path);
    }
}

/// Removing by URL keeps every bookmark whose canonical URL differs from the
/// given URL's, keeps none whose canonical URL is the given one, and keeps
/// nothing that was not there.
pub proof fn law_remove_url_keeps_the_others(items: Seq<BookmarkView>, url: Seq<char>)
    ensures
        forall|i: int|
            0 <= i < items.len() && normalized(items[i].url) != normalized(url) ==> items.filter(
                differs_url(url),
            ).contains(#[trigger] items[i]),
        forall|j: int|
            0 <= j < items.filter(differs_url(url)).len() ==> normalized(
                (#[trigger] items.filter(differs_url(url))[j]).url,
            ) != normalized(url) && items.contains(items.filter(differs_url(url))[j]),
{
    let f = items.filter(differs_url(url));
    assert forall|i: int| 0 <= i < items.len() && normalized(items[i].url) != normalized(url) implies f.contains(
        #[trigger] items[i],
    ) by {
        assert(differs_url(url)(items[i]));
        items.lemma_filter_contains(differs_url(url), i);
    }
    assert forall|j: int| 0 <= j < f.len() implies normalized((#[trigger] f[j]).url) != normalized(url)
        && items.contains(f[j]) by {
        items.lemma_filter_pred(differs_url(url), j);
        assert(f.contains(f[j]));
        items.lemma_filter_contains_rev(differs_url(url), f[j]);
    }
}

/// A title as the store keeps it: the trimmed title given, or the trimmed URL
/// where the title is blank. Either way it neither starts nor ends with
/// whitespace.
pub open spec fn title_kept(stored: Seq<char>, title: Seq<char>, url: Seq<char>) -> bool {
    &&& stored == (if trim(title).len() > 0 {
        trim(title)
    } else {
        trim(url)
    })
    &&& stored.len() == 0 || (!is_ws(stored[0]) && !is_ws(stored.last()))
}

/// After a successful edit, the stored bookmark (and the answer) carries the
/// trimmed title, or the trimmed URL where the title is blank, and it
/// carries the new time; the id and creation time are the old ones.
pub proof fn law_update_trims_title(st: BookmarksView, id: Seq<char>, title: Seq<char>, url: Seq<char>, now: u64)
    requires
        update_outcome(st, id, title, url, now).1 is Ok,
    ensures
        ({
            let b = update_outcome(st, id, title, url, now).1->Ok_0;
            &&& title_kept(b.title, title, url)
            &&& b.updated == now
            &&& b.id == id
            &&& exists|k: int|
                0 <= k < st.items.len() && st.items[k].id == id && b.created == st.items[k].created
                    && update_outcome(st, id, title, url, now).0.items[k] == b
        }),
{
    lemma_trim_shape(title);
    lemma_trim_shape(url);
    lemma_first_where_props(st.items, has_id(id));
    let k = first_where(st.items, has_id(id));
    assert(has_id(id)(st.items[k]));
    let b = update_outcome(st, id, title, url, now).1->Ok_0;
    assert(update_outcome(st, id, title, url, now).0.items[k] == b);
}

/// A newly added bookmark carries the trimmed title, or the trimmed URL where
/// the title is missing or blank, and the trimmed URL.
pub proof fn law_add_trims_title(st: BookmarksView, url: Seq<char>, title: Option<Seq<char>>, now: u64)
    requires
        add_outcome(st, url, title, now).1 is Ok,
        first_where(st.items, matches_url(url)) < 0,
    ensures
        ({
            let b = add_outcome(st, url, title, now).1->Ok_0;
            &&& title_kept(b.title, match title { Some(t) => t, None => Seq::<char>::empty() }, url)
            &&& b.url == trim(url)
            &&& b.created == now && b.updated == now
        }),
{
    lemma_trim_shape(url);
    match title {
        Some(t) => lemma_trim_shape(t),
        None => {
            assert(trim(Seq::<char>::empty()) =~= Seq::<char>::empty()) by {
                assert(trim_start(Seq::<char>::empty()) == Seq::<char>::empty());
            }
        },
    }
}

} // verus!
