//! Last-session restore for tabbed mode: which tabs a snapshot keeps, how a
//! saved session is cleaned up before it is reopened, the restore setting,
//! and the debounce that coalesces bursts of save requests.

use vstd::prelude::*;

use crate::paths::{join_file, joined};
use crate::tabs::{TabInfoView, TabsModel, tabs_view};
use crate::text::{
    contains, has_prefix, has_substring, lower, lower_char, lower_trimmed, starts_with,
    trim,
};
use crate::bookmarks::valid_url;
use crate::urls::{
    UrlPartsView, is_ascii_letter, is_web_scheme, letters_then_colon, parse_trimmed, parsed_view,
    parses_as_web, scheme_facts, web_scheme,
};

verus! {

/// The file, inside the data directory, that holds the last session.
pub const SESSION_FILE: &'static str = "pake-session.json";

/// The file, inside the data directory, that holds the session settings.
pub const SETTINGS_FILE: &'static str = "pake-settings.json";

/// How long a save request waits for newer ones before it writes.
pub const SAVE_DEBOUNCE_MS: u64 = 400;

/// One tab of a saved session.
#[derive(Debug)]
pub struct SessionTab {
    pub url: String,
    pub title: String,
}

/// The mathematical view of a [`SessionTab`].
pub struct SessionTabView {
    pub url: Seq<char>,
    pub title: Seq<char>,
}

impl View for SessionTab {
    type V = SessionTabView;

    open spec fn view(&self) -> SessionTabView {
        SessionTabView { url: self.url@, title: self.title@ }
    }
}

impl Clone for SessionTab {
    fn clone(&self) -> (r: Self)
        ensures
            r == *self,
    {
        SessionTab { url: self.url.clone(), title: self.title.clone() }
    }
}

/// A saved session: the ordered tabs and the index of the active one.
#[derive(Debug)]
pub struct SessionData {
    pub tabs: Vec<SessionTab>,
    pub active: usize,
}

/// The mathematical view of a [`SessionData`].
pub struct SessionDataView {
    pub tabs: Seq<SessionTabView>,
    pub active: usize,
}

/// The views of a sequence of session tabs.
pub open spec fn session_tabs_view(s: Seq<SessionTab>) -> Seq<SessionTabView> {
    s.map_values(|t: SessionTab| t@)
}

impl View for SessionData {
    type V = SessionDataView;

    open spec fn view(&self) -> SessionDataView {
        SessionDataView { tabs: session_tabs_view(self.tabs@), active: self.active }
    }
}

impl Clone for SessionData {
    fn clone(&self) -> (r: Self)
        ensures
            r@ == self@,
    {
        let tabs = self.tabs.clone();
        assert(session_tabs_view(tabs@) =~= session_tabs_view(self.tabs@)) by {
            assert forall|i: int| 0 <= i < tabs.len() implies tabs@[i] == self.tabs@[i] by {
                assert(vstd::pervasive::cloned::<SessionTab>(self.tabs[i], tabs[i]));
            }
        }
        SessionData { tabs, active: self.active }
    }
}

impl Default for SessionData {
    fn default() -> (r: Self)
        ensures
            r@.tabs.len() == 0,
            r.active == 0,
    {
        SessionData { tabs: Vec::new(), active: 0 }
    }
}

/// The view of an optional session.
pub open spec fn opt_session_view(o: Option<SessionData>) -> Option<SessionDataView> {
    match o {
        Some(d) => Some(d@),
        None => None,
    }
}

/// The user's session settings.
#[derive(Clone, Copy, Debug)]
pub struct SessionSettings {
    pub restore_session: bool,
}

impl Default for SessionSettings {
    /// Restoring the previous tabs is the default for tabbed mode.
    fn default() -> (r: Self)
        ensures
            r.restore_session,
    {
        SessionSettings { restore_session: true }
    }
}

/// The running session state: the data directory, whether tabs are being
/// restored (which suppresses saving), the generation of the newest save
/// request, and the settings.
pub struct SessionState {
    pub dir: std::path::PathBuf,
    pub restoring: bool,
    pub generation: u64,
    pub settings: SessionSettings,
}

impl SessionState {
    /// A fresh state for `dir` with the loaded settings.
    pub fn new(dir: std::path::PathBuf, settings: SessionSettings) -> (r: Self)
        ensures
            r.dir == dir,
            !r.restoring,
            r.generation == 0,
            r.settings == settings,
    {
        SessionState { dir, restoring: false, generation: 0, settings }
    }

    /// The path of the session file: `dir.join(SESSION_FILE)`.
    pub fn session_path(&self) -> (r: std::path::PathBuf)
        ensures
            r == joined(self.dir, SESSION_FILE@),
    {
        join_file(&self.dir, SESSION_FILE)
    }

    /// The path of the settings file: `dir.join(SETTINGS_FILE)`.
    pub fn settings_path(&self) -> (r: std::path::PathBuf)
        ensures
            r == joined(self.dir, SETTINGS_FILE@),
    {
        join_file(&self.dir, SETTINGS_FILE)
    }
}

/// The settings from the parsed settings file; the defaults where the file
/// could not be read or parsed.
pub fn load_settings(parsed: Option<SessionSettings>) -> (r: SessionSettings)
    ensures
        r == match parsed {
            Some(s) => s,
            None => SessionSettings { restore_session: true },
        },
{
    match parsed {
        Some(s) => s,
        None => SessionSettings::default(),
    }
}

// ---------------------------------------------------------------------------
// URLs
// ---------------------------------------------------------------------------

/// Pages that are never saved or restored: blank input, the tab strip, the
/// bookmark manager (also in their `<scheme>.localhost` host form), and
/// `about:` and `data:` pages.
pub open spec fn is_internal_url_spec(url: Seq<char>) -> bool {
    let l = lower(trim(url));
    ||| trim(url).len() == 0
    ||| starts_with(l, "paketabs:"@)
    ||| starts_with(l, "pakebookmarks:"@)
    ||| starts_with(l, "about:"@)
    ||| starts_with(l, "data:"@)
    ||| contains(l, "paketabs.localhost"@)
    ||| contains(l, "pakebookmarks.localhost"@)
}

/// A URL worth saving and restoring: not internal, and its trimmed text
/// parses with scheme `http`, `https` or `file`.
pub open spec fn restorable(url: Seq<char>) -> bool {
    !is_internal_url_spec(url) && parses_as_web(url)
}

fn is_internal_url(url: &str) -> (r: bool)
    ensures
        r == is_internal_url_spec(url@),
{
    let lower = lower_trimmed(url);
    proof {
        assert(lower@.len() == trim(url@).len());
    }
    lower.len() == 0 || has_prefix(&lower, "paketabs:") || has_prefix(&lower, "pakebookmarks:")
        || has_prefix(&lower, "about:") || has_prefix(&lower, "data:") || has_substring(
        &lower,
        "paketabs.localhost",
    ) || has_substring(&lower, "pakebookmarks.localhost")
}

/// Where `lower(t)` starts with `p`, made of lower-case ASCII letters and a
/// final `:`, `t` starts with as many letters and a `:`, and those letters in
/// lower case are `p` without its `:`.
proof fn lemma_lowered_prefix(t: Seq<char>, p: Seq<char>)
    requires
        p.len() >= 2,
        starts_with(lower(t), p),
        p.last() == ':',
        forall|i: int| 0 <= i < p.len() - 1 ==> 'a' <= #[trigger] p[i] && p[i] <= 'z',
    ensures
        letters_then_colon(t, p.len() - 1),
        lower(t.take(p.len() - 1)) == p.take(p.len() - 1),
{
    let k = p.len() - 1;
    assert forall|i: int| 0 <= i < k implies is_ascii_letter(#[trigger] t[i]) by {
        assert(lower(t)[i] == p[i]);
        assert(lower(t)[i] == lower_char(t[i]));
    }
    assert(lower(t)[k] == lower_char(t[k]));
    assert(lower(t)[k] == ':');
    if 'A' <= t[k] && t[k] <= 'Z' {
        assert(((t[k] as u32) + 32) as char != ':');
    }
    assert(lower(t.take(k)) =~= p.take(k)) by {
        assert forall|i: int| 0 <= i < k implies lower(t.take(k))[i] == p.take(k)[i] by {
            assert(lower(t)[i] == p[i]);
        }
    }
}

/// A trimmed URL whose parse has a web scheme is not blank and is no
/// `about:` or `data:` page.
proof fn lemma_web_excludes_special(t: Seq<char>, parsed: Option<UrlPartsView>)
    requires
        scheme_facts(t, parsed),
        is_web_scheme(parsed),
    ensures
        t.len() != 0,
        !starts_with(lower(t), "about:"@),
        !starts_with(lower(t), "data:"@),
{
    reveal_strlit("about:");
    reveal_strlit("data:");
    reveal_strlit("http");
    reveal_strlit("https");
    reveal_strlit("file");
    let sch = parsed->Some_0.scheme;
    if starts_with(lower(t), "about:"@) {
        lemma_lowered_prefix(t, "about:"@);
        assert(letters_then_colon(t, 5));
        assert(sch == "about:"@.take(5));
        assert(lower(sch) =~= sch);
        assert(lower(sch)[0] == 'a');
        assert(lower(sch) != "http"@ && lower(sch) != "https"@ && lower(sch) != "file"@) by {
            assert("http"@[0] == 'h');
            assert("https"@[0] == 'h');
            assert("file"@[0] == 'f');
        }
    }
    if starts_with(lower(t), "data:"@) {
        lemma_lowered_prefix(t, "data:"@);
        assert(letters_then_colon(t, 4));
        assert(sch == "data:"@.take(4));
        assert(lower(sch) =~= sch);
        assert(lower(sch)[0] == 'd');
        assert(lower(sch) != "http"@ && lower(sch) != "https"@ && lower(sch) != "file"@) by {
            assert("http"@[0] == 'h');
            assert("https"@[0] == 'h');
            assert("file"@[0] == 'f');
        }
    }
}

/// Whether `url` may be saved in and restored from a session. A URL is
/// restorable exactly when it may be bookmarked: the pages that only a
/// session excludes (blank, `about:`, `data:`) never parse with a web scheme.
pub fn is_restorable_url(url: &str) -> (r: bool)
    ensures
        r == restorable(url@),
        r == valid_url(url@),
{
    let internal = is_internal_url(url);
    let parsed = parse_trimmed(url);
    let web = web_scheme(&parsed);
    proof {
        if web {
            lemma_web_excludes_special(trim(url@), parsed_view(parsed));
        }
    }
    !internal && web
}

// ---------------------------------------------------------------------------
// Settings
// ---------------------------------------------------------------------------

/// Whether the previous session is to be restored: never without a session
/// state, else as the setting says.
pub fn restore_enabled(state: Option<&SessionState>) -> (r: bool)
    ensures
        r == match state {
            Some(s) => s.settings.restore_session,
            None => false,
        },
{
    match state {
        Some(s) => s.settings.restore_session,
        None => false,
    }
}

/// The restore setting, as the tab strip asks for it.
pub fn session_get_restore(state: Option<&SessionState>) -> (r: bool)
    ensures
        r == match state {
            Some(s) => s.settings.restore_session,
            None => false,
        },
{
    restore_enabled(state)
}

/// Sets the restore setting; the caller writes the settings file and, when
/// restore was enabled, saves the session at once.
pub fn session_set_restore(state: &mut SessionState, enabled: bool)
    ensures
        final(state).settings.restore_session == enabled,
        final(state).dir == old(state).dir,
        final(state).restoring == old(state).restoring,
        final(state).generation == old(state).generation,
{
    state.settings.restore_session = enabled;
}

/// Turns the suppression of saving during a restore on or off.
pub fn set_restoring(state: &mut SessionState, value: bool)
    ensures
        final(state).restoring == value,
        final(state).dir == old(state).dir,
        final(state).generation == old(state).generation,
        final(state).settings == old(state).settings,
{
    state.restoring = value;
}

// ---------------------------------------------------------------------------
// Saving
// ---------------------------------------------------------------------------

/// The session tab for a tab.
pub open spec fn session_tab_of(t: TabInfoView) -> SessionTabView {
    SessionTabView { url: t.url, title: t.title }
}

/// The restorable tabs of `tabs`, in order, and the index among them of the
/// last one labelled `active` (0 when none is).
pub open spec fn snapshot_parts(tabs: Seq<TabInfoView>, active: Seq<char>) -> (Seq<SessionTabView>, usize)
    decreases tabs.len(),
{
    if tabs.len() == 0 {
        (Seq::empty(), 0)
    } else {
        let (s, a) = snapshot_parts(tabs.drop_last(), active);
        let t = tabs.last();
        if restorable(t.url) {
            (s.push(session_tab_of(t)), if t.label == active {
                s.len() as usize
            } else {
                a
            })
        } else {
            (s, a)
        }
    }
}

/// The session that a snapshot of `tabs` with active label `active` saves:
/// none when no tab is restorable, so the last good session stays on disk.
pub open spec fn snapshot_spec(tabs: Seq<TabInfoView>, active: Seq<char>) -> Option<SessionDataView> {
    let (s, a) = snapshot_parts(tabs, active);
    if s.len() == 0 {
        None
    } else {
        Some(SessionDataView { tabs: s, active: a })
    }
}

/// The session to write for the current tab model: none while tabs are being
/// restored, and none when no tab is restorable.
pub fn session_snapshot(state: &SessionState, model: &TabsModel) -> (r: Option<SessionData>)
    ensures
        opt_session_view(r) == if state.restoring {
            None
        } else {
            snapshot_spec(model@.tabs, model@.active)
        },
{
    if state.restoring {
        return None;
    }
    let tabs = &model.tabs;
    let mut session_tabs: Vec<SessionTab> = Vec::new();
    let mut active_index: usize = 0;
    let mut i: usize = 0;
    while i < tabs.len()
        invariant
            i <= tabs.len(),
            (session_tabs_view(session_tabs@), active_index) == snapshot_parts(
                tabs_view(tabs@).subrange(0, i as int),
                model.active@,
            ),
        decreases tabs.len() - i,
    {
        let tab = &tabs[i];
        proof {
            assert(tabs_view(tabs@).subrange(0, i + 1).drop_last() =~= tabs_view(tabs@).subrange(
                0,
                i as int,
            ));
        }
        if is_restorable_url(tab.url.as_str()) {
            if tab.label == model.active {
                active_index = session_tabs.len();
            }
            let st = SessionTab { url: tab.url.clone(), title: tab.title.clone() };
            let ghost prev = session_tabs@;
            session_tabs.push(st);
            assert(session_tabs_view(session_tabs@) =~= session_tabs_view(prev).push(
                session_tab_of(tab@),
            ));
        }
        i = i + 1;
    }
    assert(tabs_view(tabs@).subrange(0, i as int) =~= tabs_view(tabs@));
    if session_tabs.len() == 0 {
        return None;
    }
    Some(SessionData { tabs: session_tabs, active: active_index })
}

/// The generation after one more save request, wrapping as
/// `AtomicU64::fetch_add` does.
pub open spec fn next_generation(g: u64) -> u64 {
    if g == u64::MAX {
        0
    } else {
        (g + 1) as u64
    }
}

/// One save request: while tabs are being restored it changes nothing and
/// gives no token; otherwise the generation advances and the new generation
/// is the token.
pub open spec fn request_step(before: SessionState, after: SessionState, token: Option<u64>) -> bool {
    if before.restoring {
        token is None && after == before
    } else {
        token == Some(next_generation(before.generation)) && after == (SessionState {
            generation: next_generation(before.generation),
            ..before
        })
    }
}

/// The generation after `k` save requests outside a restore.
pub open spec fn advance(g: u64, k: nat) -> u64
    decreases k,
{
    if k == 0 {
        g
    } else {
        next_generation(advance(g, (k - 1) as nat))
    }
}

/// Registers a save request. While tabs are being restored nothing is saved
/// (`None`, state unchanged); otherwise the generation advances and the new
/// generation is the request's token.
pub fn request_save(state: &mut SessionState) -> (r: Option<u64>)
    ensures
        request_step(*old(state), *final(state), r),
{
    if state.restoring {
        return None;
    }
    state.generation = if state.generation == u64::MAX {
        0
    } else {
        state.generation + 1
    };
    Some(state.generation)
}

/// Whether the save request with token `my_gen` is still the newest one, so
/// that it, and no superseded request, writes.
pub fn save_is_current(state: &SessionState, my_gen: u64) -> (r: bool)
    ensures
        r == (state.generation == my_gen),
{
    state.generation == my_gen
}

// ---------------------------------------------------------------------------
// Restoring
// ---------------------------------------------------------------------------

/// The session tab has a restorable URL.
pub open spec fn restorable_tab() -> spec_fn(SessionTabView) -> bool {
    |t: SessionTabView| restorable(t.url)
}

/// The session to reopen: none when restore is disabled or nothing was
/// loaded; otherwise the restorable tabs, none when no tab is left, with the
/// active index clamped to the last tab.
pub open spec fn restore_spec(enabled: bool, parsed: Option<SessionDataView>) -> Option<SessionDataView> {
    if !enabled {
        None
    } else {
        match parsed {
            None => None,
            Some(d) => {
                let tabs = d.tabs.filter(restorable_tab());
                if tabs.len() == 0 {
                    None
                } else {
                    Some(
                        SessionDataView {
                            tabs,
                            active: if d.active < tabs.len() {
                                d.active
                            } else {
                                (tabs.len() - 1) as usize
                            },
                        },
                    )
                }
            },
        }
    }
}

/// The session to reopen from the parsed session file (`None` where it could
/// not be read or parsed); see [`restore_spec`].
pub fn load_for_restore(state: Option<&SessionState>, parsed: Option<SessionData>) -> (r: Option<SessionData>)
    ensures
        opt_session_view(r) == restore_spec(
            match state {
                Some(s) => s.settings.restore_session,
                None => false,
            },
            opt_session_view(parsed),
        ),
{
    if !restore_enabled(state) {
        return None;
    }
    let data = match parsed {
        Some(d) => d,
        None => {
            return None;
        },
    };
    let mut tabs: Vec<SessionTab> = Vec::new();
    let mut i: usize = 0;
    assert(session_tabs_view(tabs@) =~= session_tabs_view(data.tabs@).subrange(0, 0).filter(
        restorable_tab(),
    )) by {
        reveal(Seq::filter);
    }
    while i < data.tabs.len()
        invariant
            i <= data.tabs.len(),
            session_tabs_view(tabs@) == session_tabs_view(data.tabs@).subrange(0, i as int).filter(
                restorable_tab(),
            ),
        decreases data.tabs.len() - i,
    {
        let t = &data.tabs[i];
        proof {
            let pre = session_tabs_view(data.tabs@).subrange(0, i as int);
            assert(session_tabs_view(data.tabs@).subrange(0, i + 1) =~= pre.push(t@));
            pre.lemma_filter_push(t@, restorable_tab());
        }
        if is_restorable_url(t.url.as_str()) {
            let ghost prev = tabs@;
            tabs.push(t.clone());
            assert(session_tabs_view(tabs@) =~= session_tabs_view(prev).push(t@));
        }
        i = i + 1;
    }
    assert(session_tabs_view(data.tabs@).subrange(0, i as int) =~= session_tabs_view(data.tabs@));
    if tabs.len() == 0 {
        return None;
    }
    let last = tabs.len() - 1;
    let active = if data.active < last {
        data.active
    } else {
        last
    };
    Some(SessionData { tabs, active })
}

// ---------------------------------------------------------------------------
// Laws
// ---------------------------------------------------------------------------

/// Every tab that a snapshot keeps is restorable, and the active index points
/// into the kept tabs (or is 0 when none is kept).
pub proof fn lemma_snapshot_parts_props(tabs: Seq<TabInfoView>, active: Seq<char>)
    ensures
        forall|i: int|
            0 <= i < snapshot_parts(tabs, active).0.len() ==> restorable(
                (#[trigger] snapshot_parts(tabs, active).0[i]).url,
            ),
        snapshot_parts(tabs, active).1 < snapshot_parts(tabs, active).0.len() || (snapshot_parts(
            tabs,
            active,
        ).0.len() == 0 && snapshot_parts(tabs, active).1 == 0),
        snapshot_parts(tabs, active).0.len() <= tabs.len(),
    decreases tabs.len(),
{
    if tabs.len() > 0 {
        lemma_snapshot_parts_props(tabs.drop_last(), active);
        let (s, a) = snapshot_parts(tabs.drop_last(), active);
        let t = tabs.last();
        if restorable(t.url) {
            let s2 = s.push(session_tab_of(t));
            assert forall|i: int| 0 <= i < s2.len() implies restorable((#[trigger] s2[i]).url) by {
                if i < s.len() {
                    assert(s2[i] == s[i]);
                }
            }
        }
    }
}

/// Filtering a sequence whose elements all pass keeps it whole.
pub proof fn lemma_filter_all_pass(s: Seq<SessionTabView>)
    requires
        forall|i: int| 0 <= i < s.len() ==> restorable((#[trigger] s[i]).url),
    ensures
        s.filter(restorable_tab()) == s,
    decreases s.len(),
{
    reveal(Seq::filter);
    if s.len() > 0 {
        let r = s.drop_last();
        assert forall|i: int| 0 <= i < r.len() implies restorable((#[trigger] r[i]).url) by {
            assert(r[i] == s[i]);
        }
        lemma_filter_all_pass(r);
        assert(restorable_tab()(s.last()));
        assert(r.push(s.last()) =~= s);
    }
}

/// What a snapshot saves is restored unchanged: restoring (with restore
/// enabled) the session that a snapshot wrote gives back that session.
pub proof fn law_snapshot_restores_itself(tabs: Seq<TabInfoView>, active: Seq<char>)
    requires
        snapshot_spec(tabs, active) is Some,
    ensures
        restore_spec(true, snapshot_spec(tabs, active)) == snapshot_spec(tabs, active),
{
    lemma_snapshot_parts_props(tabs, active);
    let (s, a) = snapshot_parts(tabs, active);
    lemma_filter_all_pass(s);
}

/// A restored session is never empty, its active index is in range, and all
/// of its tabs are restorable.
pub proof fn law_restored_session_well_formed(enabled: bool, parsed: Option<SessionDataView>)
    requires
        restore_spec(enabled, parsed) is Some,
    ensures
        restore_spec(enabled, parsed)->Some_0.tabs.len() > 0,
        restore_spec(enabled, parsed)->Some_0.active < restore_spec(enabled, parsed)->Some_0.tabs.len(),
        forall|i: int|
            0 <= i < restore_spec(enabled, parsed)->Some_0.tabs.len() ==> restorable(
                (#[trigger] restore_spec(enabled, parsed)->Some_0.tabs[i]).url,
            ),
{
    let d = parsed->Some_0;
    let f = d.tabs.filter(restorable_tab());
    assert forall|i: int| 0 <= i < f.len() implies restorable((#[trigger] f[i]).url) by {
        d.tabs.lemma_filter_pred(restorable_tab(), i);
    }
}

/// Restoring is stable: restoring a restored session again changes nothing.
pub proof fn law_restore_is_stable(enabled: bool, parsed: Option<SessionDataView>)
    requires
        restore_spec(enabled, parsed) is Some,
    ensures
        restore_spec(true, restore_spec(enabled, parsed)) == restore_spec(enabled, parsed),
{
    law_restored_session_well_formed(enabled, parsed);
    lemma_filter_all_pass(restore_spec(enabled, parsed)->Some_0.tabs);
}

/// Where exactly one tab carries the active label and it is restorable, the
/// snapshot's active index points at that tab.
pub proof fn law_snapshot_keeps_active_tab(tabs: Seq<TabInfoView>, active: Seq<char>, i: int)
    requires
        0 <= i < tabs.len() <= usize::MAX,
        tabs[i].label == active,
        restorable(tabs[i].url),
        forall|j: int| 0 <= j < tabs.len() && j != i ==> (#[trigger] tabs[j]).label != active,
    ensures
        snapshot_spec(tabs, active) is Some,
        snapshot_spec(tabs, active)->Some_0.tabs[snapshot_spec(tabs, active)->Some_0.active as int]
            == session_tab_of(tabs[i]),
    decreases tabs.len(),
{
    let r = tabs.drop_last();
    let (s, a) = snapshot_parts(r, active);
    lemma_snapshot_parts_props(r, active);
    if i < tabs.len() - 1 {
        assert forall|j: int| 0 <= j < r.len() && j != i implies (#[trigger] r[j]).label != active by {
            assert(r[j] == tabs[j]);
        }
        assert(r[i] == tabs[i]);
        law_snapshot_keeps_active_tab(r, active, i);
        assert(tabs.last().label != active);
        assert(s[a as int] == session_tab_of(tabs[i]));
        if restorable(tabs.last().url) {
            assert(s.push(session_tab_of(tabs.last()))[a as int] == s[a as int]);
        }
    } else {
        assert(tabs.last() == tabs[i]);
        assert(s.push(session_tab_of(tabs.last()))[s.len() as int] == session_tab_of(tabs[i]));
    }
}

/// The tab has a restorable URL.
pub open spec fn restorable_tab_info() -> spec_fn(TabInfoView) -> bool {
    |t: TabInfoView| restorable(t.url)
}

/// A snapshot keeps exactly the restorable tabs, in order.
pub proof fn law_snapshot_keeps_restorable_tabs(tabs: Seq<TabInfoView>, active: Seq<char>)
    ensures
        snapshot_parts(tabs, active).0 == tabs.filter(restorable_tab_info()).map_values(
            |t: TabInfoView| session_tab_of(t),
        ),
    decreases tabs.len(),
{
    reveal(Seq::filter);
    if tabs.len() > 0 {
        law_snapshot_keeps_restorable_tabs(tabs.drop_last(), active);
        let f = tabs.drop_last().filter(restorable_tab_info());
        if restorable(tabs.last().url) {
            assert(f.push(tabs.last()).map_values(|t: TabInfoView| session_tab_of(t))
                =~= f.map_values(|t: TabInfoView| session_tab_of(t)).push(session_tab_of(tabs.last())));
        }
    } else {
        assert(tabs.filter(restorable_tab_info()).map_values(|t: TabInfoView| session_tab_of(t))
            =~= Seq::<SessionTabView>::empty());
    }
}

/// A newer save request supersedes an older one: their tokens differ.
pub proof fn law_newer_request_supersedes(g: u64)
    ensures
        next_generation(next_generation(g)) != next_generation(g),
{
}

/// `advance` counts modulo 2^64.
pub proof fn lemma_advance_mod(g: u64, k: nat)
    ensures
        advance(g, k) as int == (g + k) % 0x1_0000_0000_0000_0000,
    decreases k,
{
    if k > 0 {
        lemma_advance_mod(g, (k - 1) as nat);
    }
}

/// Fewer than 2^64 further requests never bring the generation back.
pub proof fn lemma_advance_distinct(g: u64, i: nat, k: nat)
    requires
        i < k,
        k - i < 0x1_0000_0000_0000_0000,
    ensures
        advance(g, i) != advance(g, k),
{
    lemma_advance_mod(g, i);
    lemma_advance_mod(g, k);
}

/// Debouncing over a run of save requests made outside a restore: every
/// request gets a token, the generation advances once per request, and of all
/// the tokens only the last one is still current, so only the last request
/// writes.
pub proof fn law_only_newest_request_writes(states: Seq<SessionState>, tokens: Seq<Option<u64>>)
    requires
        tokens.len() >= 1,
        tokens.len() <= u64::MAX,
        states.len() == tokens.len() + 1,
        !states[0].restoring,
        forall|i: int|
            0 <= i < tokens.len() ==> request_step(#[trigger] states[i], states[i + 1], tokens[i]),
    ensures
        forall|i: int| 0 <= i < tokens.len() ==> #[trigger] tokens[i] is Some,
        states.last().generation == advance(states[0].generation, tokens.len()),
        forall|i: int|
            0 <= i < tokens.len() ==> ((#[trigger] tokens[i])->Some_0 == states.last().generation
                <==> i == tokens.len() - 1),
{
    let g = states[0].generation;
    let n = tokens.len() as int;
    assert forall|j: int| 0 <= j <= n implies (#[trigger] states[j]).generation == advance(g, j as nat)
        && !states[j].restoring by {
        lemma_run_prefix(states, tokens, j);
    }
    assert forall|i: int| 0 <= i < n implies #[trigger] tokens[i] == Some(advance(g, (i + 1) as nat)) by {
        assert(states[i].generation == advance(g, i as nat) && !states[i].restoring);
        assert(request_step(states[i], states[i + 1], tokens[i]));
    }
    assert(states.last() == states[n]);
    assert forall|i: int| 0 <= i < n implies ((#[trigger] tokens[i])->Some_0
        == states.last().generation <==> i == n - 1) by {
        assert(tokens[i] == Some(advance(g, (i + 1) as nat)));
        if i < n - 1 {
            lemma_advance_distinct(g, (i + 1) as nat, n as nat);
        }
    }
}

/// The states of a run of requests outside a restore, up to `j`.
proof fn lemma_run_prefix(states: Seq<SessionState>, tokens: Seq<Option<u64>>, j: int)
    requires
        states.len() == tokens.len() + 1,
        !states[0].restoring,
        forall|i: int|
            0 <= i < tokens.len() ==> request_step(#[trigger] states[i], states[i + 1], tokens[i]),
        0 <= j <= tokens.len(),
    ensures
        states[j].generation == advance(states[0].generation, j as nat),
        !states[j].restoring,
    decreases j,
{
    if j > 0 {
        lemma_run_prefix(states, tokens, j - 1);
        assert(request_step(states[j - 1], states[j], tokens[j - 1]));
    }
}

/// A save request made while tabs are being restored changes nothing and
/// writes nothing, however many are made.
pub proof fn law_requests_during_restore_change_nothing(states: Seq<SessionState>, tokens: Seq<Option<u64>>)
    requires
        states.len() == tokens.len() + 1,
        states[0].restoring,
        forall|i: int|
            0 <= i < tokens.len() ==> request_step(#[trigger] states[i], states[i + 1], tokens[i]),
    ensures
        forall|j: int| 0 <= j < states.len() ==> #[trigger] states[j] == states[0],
        forall|i: int| 0 <= i < tokens.len() ==> #[trigger] tokens[i] is None,
{
    assert forall|j: int| 0 <= j < states.len() implies #[trigger] states[j] == states[0] by {
        lemma_restore_prefix(states, tokens, j);
    }
    assert forall|i: int| 0 <= i < tokens.len() implies #[trigger] tokens[i] is None by {
        lemma_restore_prefix(states, tokens, i);
        assert(request_step(states[i], states[i + 1], tokens[i]));
    }
}

/// The states of a run of requests during a restore, up to `j`.
proof fn lemma_restore_prefix(states: Seq<SessionState>, tokens: Seq<Option<u64>>, j: int)
    requires
        states.len() == tokens.len() + 1,
        states[0].restoring,
        forall|i: int|
            0 <= i < tokens.len() ==> request_step(#[trigger] states[i], states[i + 1], tokens[i]),
        0 <= j < states.len(),
    ensures
        states[j] == states[0],
    decreases j,
{
    if j > 0 {
        lemma_restore_prefix(states, tokens, j - 1);
        assert(request_step(states[j - 1], states[j], tokens[j - 1]));
    }
}

} // verus!
