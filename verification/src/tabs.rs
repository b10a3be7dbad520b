//! The tab model of tabbed mode: the ordered list of content tabs, the
//! active tab, and the counter that names new tabs. The window and its
//! webviews follow this model; every decision about tabs is taken here.

use vstd::prelude::*;

use crate::seqs::{first_where, lemma_first_where_at, lemma_first_where_props};
use crate::text::{chars_of, decimal, is_blank, lemma_decimal_injective, push_decimal, push_str, string_from, trim};
use crate::urls::{parse_url, url_parse};

verus! {

/// The label of the one native window that hosts the tabs.
pub const SHELL_LABEL: &'static str = "pake";

/// The label of the tab-strip webview.
pub const CHROME_LABEL: &'static str = "pake-chrome";

/// The custom scheme that serves the tab strip.
pub const CHROME_SCHEME: &'static str = "paketabs";

/// The tab-strip page; its logic comes from an initialization script.
pub const CHROME_HTML: &'static str = "<!doctype html><html><head><meta charset=\"utf-8\"><title>tabs</title></head><body></body></html>";

/// One content tab.
pub struct TabInfo {
    pub label: String,
    pub title: String,
    pub url: String,
}

/// The mathematical view of a [`TabInfo`].
pub struct TabInfoView {
    pub label: Seq<char>,
    pub title: Seq<char>,
    pub url: Seq<char>,
}

impl View for TabInfo {
    type V = TabInfoView;

    open spec fn view(&self) -> TabInfoView {
        TabInfoView { label: self.label@, title: self.title@, url: self.url@ }
    }
}

impl Clone for TabInfo {
    fn clone(&self) -> (r: Self)
        ensures
            r == *self,
    {
        TabInfo { label: self.label.clone(), title: self.title.clone(), url: self.url.clone() }
    }
}

/// The tab list, the label of the active tab, and the number of tab labels
/// handed out so far.
pub struct TabsModel {
    pub tabs: Vec<TabInfo>,
    pub active: String,
    pub counter: u32,
}

/// The mathematical view of a [`TabsModel`].
pub struct TabsModelView {
    pub tabs: Seq<TabInfoView>,
    pub active: Seq<char>,
    pub counter: u32,
}

/// The views of a sequence of tabs.
pub open spec fn tabs_view(s: Seq<TabInfo>) -> Seq<TabInfoView> {
    s.map_values(|t: TabInfo| t@)
}

impl View for TabsModel {
    type V = TabsModelView;

    open spec fn view(&self) -> TabsModelView {
        TabsModelView { tabs: tabs_view(self.tabs@), active: self.active@, counter: self.counter }
    }
}

impl Default for TabsModel {
    fn default() -> (r: Self)
        ensures
            r@.tabs.len() == 0,
            r@.active.len() == 0,
            r.counter == 0,
    {
        TabsModel { tabs: Vec::new(), active: String::new(), counter: 0 }
    }
}

// ---------------------------------------------------------------------------
// Specifications
// ---------------------------------------------------------------------------

/// The label of the `k`-th content tab: `pake-content-<k>`.
pub open spec fn tab_label(k: nat) -> Seq<char> {
    "pake-content-"@ + decimal(k)
}

/// The tab has label `label`.
pub open spec fn has_label(label: Seq<char>) -> spec_fn(TabInfoView) -> bool {
    |t: TabInfoView| t.label == label
}

/// Some tab has label `label`.
pub open spec fn holds_label(tabs: Seq<TabInfoView>, label: Seq<char>) -> bool {
    exists|i: int| 0 <= i < tabs.len() && #[trigger] tabs[i].label == label
}

/// The model's invariant: labels are distinct, each was handed out by the
/// counter, and while there are tabs the active label is one of them.
pub open spec fn well_formed(m: TabsModelView) -> bool {
    &&& forall|i: int, j: int|
        0 <= i < j < m.tabs.len() ==> (#[trigger] m.tabs[i]).label != (#[trigger] m.tabs[j]).label
    &&& forall|i: int|
        0 <= i < m.tabs.len() ==> exists|k: nat|
            1 <= k <= m.counter && (#[trigger] m.tabs[i]).label == #[trigger] tab_label(k)
    &&& m.tabs.len() > 0 ==> holds_label(m.tabs, m.active)
}

/// The URL that a new content tab loads: `url` where it parses, else `home`
/// where it parses, else `about:blank`.
pub open spec fn content_target_spec(url: Seq<char>, home: Seq<char>) -> Seq<char> {
    if url_parse(url) is Some {
        url
    } else if url_parse(home) is Some {
        home
    } else {
        "about:blank"@
    }
}

/// The model after recording a new tab `label` at `url` and making it active.
pub open spec fn record_spec(m: TabsModelView, label: Seq<char>, url: Seq<char>) -> TabsModelView {
    TabsModelView {
        tabs: m.tabs.push(TabInfoView { label, title: "New Tab"@, url }),
        active: label,
        ..m
    }
}

/// The model after switching to `label`: unchanged where no tab has it.
pub open spec fn switch_spec(m: TabsModelView, label: Seq<char>) -> TabsModelView {
    if holds_label(m.tabs, label) {
        TabsModelView { active: label, ..m }
    } else {
        m
    }
}

/// The index of the tab that becomes active after closing the active tab at
/// `idx`, leaving `remaining` tabs: the tab that took its place, or the one
/// before it when it was the last.
pub open spec fn neighbor(idx: int, remaining: int) -> int {
    if idx >= remaining {
        if idx >= 1 {
            idx - 1
        } else {
            0
        }
    } else {
        idx
    }
}

/// The model after closing the first tab labelled `label`; where it was
/// active, its neighbour becomes active (or no tab, when none remains).
pub open spec fn close_spec(m: TabsModelView, label: Seq<char>) -> TabsModelView {
    let i = first_where(m.tabs, has_label(label));
    if i < 0 {
        m
    } else {
        let rest = m.tabs.remove(i);
        let active = if m.active == label {
            let n = neighbor(i, rest.len() as int);
            if n < rest.len() {
                rest[n].label
            } else {
                Seq::<char>::empty()
            }
        } else {
            m.active
        };
        TabsModelView { tabs: rest, active, ..m }
    }
}

/// The model after the tab labelled `label` reported `title` and `url`;
/// blank values are ignored.
pub open spec fn report_spec(m: TabsModelView, label: Seq<char>, title: Seq<char>, url: Seq<char>) -> TabsModelView {
    let i = first_where(m.tabs, has_label(label));
    if i < 0 {
        m
    } else {
        let t = m.tabs[i];
        let t2 = TabInfoView {
            title: if trim(title).len() > 0 {
                title
            } else {
                t.title
            },
            url: if trim(url).len() > 0 {
                url
            } else {
                t.url
            },
            ..t
        };
        TabsModelView { tabs: m.tabs.update(i, t2), ..m }
    }
}

// ---------------------------------------------------------------------------
// Operations
// ---------------------------------------------------------------------------

/// The first configured window's URL, or the empty string.
pub fn home_url(window_urls: &Vec<String>) -> (r: String)
    ensures
        r@ == if window_urls.len() > 0 {
            window_urls[0]@
        } else {
            Seq::<char>::empty()
        },
{
    if window_urls.len() > 0 {
        window_urls[0].clone()
    } else {
        String::new()
    }
}

/// The URL of the tab strip: the first of `paketabs://localhost/` and
/// `http://paketabs.localhost/` that parses, else `about:blank`.
pub fn chrome_url() -> (r: String)
    ensures
        r@ == if url_parse(CHROME_SCHEME@ + "://localhost/"@) is Some {
            CHROME_SCHEME@ + "://localhost/"@
        } else if url_parse("http://"@ + CHROME_SCHEME@ + ".localhost/"@) is Some {
            "http://"@ + CHROME_SCHEME@ + ".localhost/"@
        } else {
            "about:blank"@
        },
{
    let mut first = string_from(CHROME_SCHEME);
    push_str(&mut first, "://localhost/");
    if parse_url(first.as_str()).is_some() {
        return first;
    }
    let mut second = string_from("http://");
    push_str(&mut second, CHROME_SCHEME);
    push_str(&mut second, ".localhost/");
    if parse_url(second.as_str()).is_some() {
        return second;
    }
    string_from("about:blank")
}

/// The URL that `tab_new` opens: the given one unless it is missing or blank,
/// else the home URL.
pub fn tab_new_target(url: Option<String>, home: String) -> (r: String)
    ensures
        r@ == match url {
            Some(u) => if trim(u@).len() > 0 {
                u@
            } else {
                home@
            },
            None => home@,
        },
{
    match url {
        Some(u) => {
            if is_blank(u.as_str()) {
                home
            } else {
                u
            }
        },
        None => home,
    }
}

/// The URL that a new content tab loads; see [`content_target_spec`].
pub fn content_target(url: &str, home: &str) -> (r: String)
    ensures
        r@ == content_target_spec(url@, home@),
{
    if parse_url(url).is_some() {
        string_from(url)
    } else if parse_url(home).is_some() {
        string_from(home)
    } else {
        string_from("about:blank")
    }
}

/// Hands out the next tab label, `pake-content-<counter + 1>`.
pub fn next_tab_label(model: &mut TabsModel) -> (r: String)
    requires
        old(model).counter < u32::MAX,
    ensures
        final(model)@ == (TabsModelView { counter: (old(model).counter + 1) as u32, ..old(model)@ }),
        r@ == tab_label(final(model).counter as nat),
{
    model.counter = model.counter + 1;
    let mut label = string_from("pake-content-");
    push_decimal(&mut label, model.counter as u64);
    label
}

/// Records a new tab `label` at `url`, titled "New Tab", and makes it active.
pub fn record_tab(model: &mut TabsModel, label: String, url: String)
    ensures
        final(model)@ == record_spec(old(model)@, label@, url@),
{
    let tab = TabInfo { label: label.clone(), title: string_from("New Tab"), url };
    let ghost prev = model.tabs@;
    model.tabs.push(tab.clone());
    assert(tabs_view(model.tabs@) =~= tabs_view(prev).push(tab@));
    model.active = label;
}

/// The index of the first tab labelled `label`.
fn find_label(tabs: &Vec<TabInfo>, label: &String) -> (r: Option<usize>)
    ensures
        match r {
            Some(i) => i < tabs.len() && i as int == first_where(tabs_view(tabs@), has_label(label@)),
            None => first_where(tabs_view(tabs@), has_label(label@)) == -1,
        },
{
    let mut i: usize = 0;
    while i < tabs.len()
        invariant
            i <= tabs.len(),
            forall|j: int| 0 <= j < i ==> !has_label(label@)(#[trigger] tabs_view(tabs@)[j]),
        decreases tabs.len() - i,
    {
        if tabs[i].label == *label {
            proof {
                lemma_first_where_at(tabs_view(tabs@), has_label(label@), i as int);
            }
            return Some(i);
        }
        i = i + 1;
    }
    proof {
        lemma_first_where_at(tabs_view(tabs@), has_label(label@), i as int);
    }
    None
}

/// Makes `label` the active tab, where some tab has it.
pub fn tab_switch(model: &mut TabsModel, label: &String)
    ensures
        final(model)@ == switch_spec(old(model)@, label@),
{
    let found = find_label(&model.tabs, label);
    proof {
        lemma_first_where_props(tabs_view(model.tabs@), has_label(label@));
        if found is None {
            assert forall|i: int| 0 <= i < model@.tabs.len() implies #[trigger] model@.tabs[i].label
                != label@ by {
                assert(!has_label(label@)(model@.tabs[i]));
            }
        } else {
            let i = first_where(tabs_view(model.tabs@), has_label(label@));
            assert(has_label(label@)(model@.tabs[i]));
        }
    }
    if found.is_some() {
        model.active = label.clone();
    }
}

/// Closes the first tab labelled `label`; where it was active, its neighbour
/// becomes active. Gives back the active label and whether no tab is left.
pub fn tab_close(model: &mut TabsModel, label: &String) -> (r: (String, bool))
    ensures
        final(model)@ == close_spec(old(model)@, label@),
        r.0@ == final(model)@.active,
        r.1 == (final(model)@.tabs.len() == 0),
{
    match find_label(&model.tabs, label) {
        Some(idx) => {
            let ghost prev = model.tabs@;
            model.tabs.remove(idx);
            assert(tabs_view(model.tabs@) =~= tabs_view(prev).remove(idx as int));
            if model.active == *label {
                let n = if idx >= model.tabs.len() {
                    if idx >= 1 {
                        idx - 1
                    } else {
                        0
                    }
                } else {
                    idx
                };
                model.active = if n < model.tabs.len() {
                    model.tabs[n].label.clone()
                } else {
                    String::new()
                };
            }
        },
        None => {},
    }
    (model.active.clone(), model.tabs.len() == 0)
}

/// Applies a title/URL report from the tab labelled `label`; blank values
/// are ignored.
pub fn tab_report(model: &mut TabsModel, label: &String, title: String, url: String)
    ensures
        final(model)@ == report_spec(old(model)@, label@, title@, url@),
{
    match find_label(&model.tabs, label) {
        Some(i) => {
            let t = &model.tabs[i];
            let new_title = if is_blank(title.as_str()) {
                t.title.clone()
            } else {
                title
            };
            let new_url = if is_blank(url.as_str()) {
                t.url.clone()
            } else {
                url
            };
            let updated = TabInfo { label: t.label.clone(), title: new_title, url: new_url };
            let ghost prev = model.tabs@;
            model.tabs.set(i, updated.clone());
            assert(tabs_view(model.tabs@) =~= tabs_view(prev).update(i as int, updated@));
        },
        None => {},
    }
}

/// The file name of a download: the name the webview proposed, else the last
/// segment of the URL's path, else `download`; empty names are skipped.
pub fn download_file_name(proposed: Option<String>, last_segment: Option<String>) -> (r: String)
    ensures
        r@ == match proposed {
            Some(p) if p@.len() > 0 => p@,
            _ => match last_segment {
                Some(s) if s@.len() > 0 => s@,
                _ => "download"@,
            },
        },
{
    if let Some(p) = proposed {
        let pv = chars_of(p.as_str());
        if pv.len() > 0 {
            return p;
        }
    }
    if let Some(s) = last_segment {
        let sv = chars_of(s.as_str());
        if sv.len() > 0 {
            return s;
        }
    }
    string_from("download")
}

/// What happens to a webview when the tab `active` is shown.
pub enum Visibility {
    /// The tab strip, which is left as it is.
    Untouched,
    Show,
    Hide,
}

/// The visibility of each webview when only the tab `active` is shown: the
/// tab strip is left alone, the active tab is shown, every other tab hidden.
pub fn show_plan(labels: &Vec<String>, active: &String) -> (r: Vec<Visibility>)
    ensures
        r.len() == labels.len(),
        forall|i: int|
            0 <= i < labels.len() ==> (#[trigger] r[i]) == if labels[i]@ == CHROME_LABEL@ {
                Visibility::Untouched
            } else if labels[i]@ == active@ {
                Visibility::Show
            } else {
                Visibility::Hide
            },
{
    let chrome = string_from(CHROME_LABEL);
    let mut out: Vec<Visibility> = Vec::new();
    let mut i: usize = 0;
    while i < labels.len()
        invariant
            i <= labels.len(),
            chrome@ == CHROME_LABEL@,
            out.len() == i,
            forall|j: int|
                0 <= j < i ==> (#[trigger] out[j]) == if labels[j]@ == CHROME_LABEL@ {
                    Visibility::Untouched
                } else if labels[j]@ == active@ {
                    Visibility::Show
                } else {
                    Visibility::Hide
                },
        decreases labels.len() - i,
    {
        let v = if labels[i] == chrome {
            Visibility::Untouched
        } else if labels[i] == *active {
            Visibility::Show
        } else {
            Visibility::Hide
        };
        out.push(v);
        i = i + 1;
    }
    out
}

// ---------------------------------------------------------------------------
// Laws
// ---------------------------------------------------------------------------

/// Distinct counter values give distinct tab labels.
pub proof fn lemma_tab_label_injective(a: nat, b: nat)
    requires
        tab_label(a) == tab_label(b),
    ensures
        a == b,
{
    let p = "pake-content-"@;
    assert(tab_label(a).subrange(p.len() as int, tab_label(a).len() as int) =~= decimal(a));
    assert(tab_label(b).subrange(p.len() as int, tab_label(b).len() as int) =~= decimal(b));
    lemma_decimal_injective(a, b);
}

/// A model without tabs is well formed.
pub proof fn law_empty_model_well_formed(m: TabsModelView)
    requires
        m.tabs.len() == 0,
    ensures
        well_formed(m),
{
}

/// The next label handed out is held by no tab, and handing it out keeps the
/// model well formed.
pub proof fn law_next_label_is_fresh(m: TabsModelView)
    requires
        well_formed(m),
        m.counter < u32::MAX,
    ensures
        !holds_label(m.tabs, tab_label((m.counter + 1) as nat)),
        well_formed(TabsModelView { counter: (m.counter + 1) as u32, ..m }),
{
    let fresh = tab_label((m.counter + 1) as nat);
    if holds_label(m.tabs, fresh) {
        let i = choose|i: int| 0 <= i < m.tabs.len() && #[trigger] m.tabs[i].label == fresh;
        let k = choose|k: nat| 1 <= k <= m.counter && m.tabs[i].label == #[trigger] tab_label(k);
        lemma_tab_label_injective(k, (m.counter + 1) as nat);
    }
    let m2 = TabsModelView { counter: (m.counter + 1) as u32, ..m };
    assert forall|i: int| 0 <= i < m2.tabs.len() implies exists|k: nat|
        1 <= k <= m2.counter && (#[trigger] m2.tabs[i]).label == #[trigger] tab_label(k) by {
        let k = choose|k: nat| 1 <= k <= m.counter && m.tabs[i].label == #[trigger] tab_label(k);
        assert(1 <= k <= m2.counter && m2.tabs[i].label == tab_label(k));
    }
}

/// Recording a tab under a label that the counter handed out and no tab
/// holds keeps the model well formed, and the new tab is active.
pub proof fn law_record_keeps_well_formed(m: TabsModelView, k: nat, url: Seq<char>)
    requires
        well_formed(m),
        1 <= k <= m.counter,
        !holds_label(m.tabs, tab_label(k)),
    ensures
        well_formed(record_spec(m, tab_label(k), url)),
        record_spec(m, tab_label(k), url).active == tab_label(k),
{
    let m2 = record_spec(m, tab_label(k), url);
    let n = m.tabs.len() as int;
    assert forall|i: int, j: int| 0 <= i < j < m2.tabs.len() implies (#[trigger] m2.tabs[i]).label
        != (#[trigger] m2.tabs[j]).label by {
        if j == n {
            assert(m2.tabs[i] == m.tabs[i]);
        } else {
            assert(m2.tabs[i] == m.tabs[i] && m2.tabs[j] == m.tabs[j]);
        }
    }
    assert forall|i: int| 0 <= i < m2.tabs.len() implies exists|k2: nat|
        1 <= k2 <= m2.counter && (#[trigger] m2.tabs[i]).label == #[trigger] tab_label(k2) by {
        if i == n {
            assert(m2.tabs[i].label == tab_label(k));
        } else {
            assert(m2.tabs[i] == m.tabs[i]);
        }
    }
    assert(m2.tabs[n].label == m2.active);
}

/// Switching tabs keeps the model well formed.
pub proof fn law_switch_keeps_well_formed(m: TabsModelView, label: Seq<char>)
    requires
        well_formed(m),
    ensures
        well_formed(switch_spec(m, label)),
{
}

/// Closing a tab keeps the model well formed: the labels stay distinct, and
/// while tabs remain the active label is one of theirs.
pub proof fn law_close_keeps_well_formed(m: TabsModelView, label: Seq<char>)
    requires
        well_formed(m),
    ensures
        well_formed(close_spec(m, label)),
{
    lemma_first_where_props(m.tabs, has_label(label));
    let i = first_where(m.tabs, has_label(label));
    if i >= 0 {
        let rest = m.tabs.remove(i);
        let m2 = close_spec(m, label);
        assert forall|a: int| 0 <= a < rest.len() implies #[trigger] rest[a] == m.tabs[if a < i {
            a
        } else {
            a + 1
        }] by {}
        assert forall|a: int, b: int| 0 <= a < b < m2.tabs.len() implies (
        #[trigger] m2.tabs[a]).label != (#[trigger] m2.tabs[b]).label by {
            let a2 = if a < i {
                a
            } else {
                a + 1
            };
            let b2 = if b < i {
                b
            } else {
                b + 1
            };
            assert(m2.tabs[a] == m.tabs[a2] && m2.tabs[b] == m.tabs[b2]);
        }
        assert forall|a: int| 0 <= a < m2.tabs.len() implies exists|k: nat|
            1 <= k <= m2.counter && (#[trigger] m2.tabs[a]).label == #[trigger] tab_label(k) by {
            let a2 = if a < i {
                a
            } else {
                a + 1
            };
            assert(m2.tabs[a] == m.tabs[a2]);
        }
        if m2.tabs.len() > 0 {
            if m.active == label {
                let nb = neighbor(i, rest.len() as int);
                assert(nb < rest.len());
                assert(m2.tabs[nb].label == m2.active);
            } else {
                let a = choose|a: int| 0 <= a < m.tabs.len() && #[trigger] m.tabs[a].label == m.active;
                assert(a != i);
                let a2 = if a < i {
                    a
                } else {
                    a - 1
                };
                assert(m2.tabs[a2] == m.tabs[a]);
            }
        }
    }
}

/// In a well-formed model, closing a tab leaves no tab with its label.
pub proof fn law_close_removes_label(m: TabsModelView, label: Seq<char>)
    requires
        well_formed(m),
    ensures
        !holds_label(close_spec(m, label).tabs, label),
        close_spec(m, label).tabs.len() == if holds_label(m.tabs, label) {
            m.tabs.len() - 1
        } else {
            m.tabs.len() as int
        },
{
    lemma_first_where_props(m.tabs, has_label(label));
    let i = first_where(m.tabs, has_label(label));
    if i >= 0 {
        let rest = m.tabs.remove(i);
        assert(has_label(label)(m.tabs[i]));
        assert forall|a: int| 0 <= a < rest.len() implies #[trigger] rest[a].label != label by {
            let a2 = if a < i {
                a
            } else {
                a + 1
            };
            assert(rest[a] == m.tabs[a2]);
        }
    } else {
        assert forall|a: int| 0 <= a < m.tabs.len() implies #[trigger] m.tabs[a].label != label by {
            assert(!has_label(label)(m.tabs[a]));
        }
    }
}

/// Closing the only tab and then opening the home tab, as the window does so
/// that it never has zero tabs, leaves exactly one tab: a "New Tab" at the
/// home URL under the next label, and it is active.
pub proof fn law_close_last_tab_reopens_home(m: TabsModelView, label: Seq<char>, home: Seq<char>)
    requires
        well_formed(m),
        m.tabs.len() == 1,
        m.tabs[0].label == label,
        m.counter < u32::MAX,
    ensures
        close_spec(m, label).tabs.len() == 0,
        ({
            let k = (m.counter + 1) as nat;
            let reopened = record_spec(
                TabsModelView { counter: (m.counter + 1) as u32, ..close_spec(m, label) },
                tab_label(k),
                home,
            );
            &&& reopened.tabs == seq![TabInfoView { label: tab_label(k), title: "New Tab"@, url: home }]
            &&& reopened.active == tab_label(k)
            &&& reopened.counter == m.counter + 1
            &&& well_formed(reopened)
        }),
{
    lemma_first_where_at(m.tabs, has_label(label), 0);
    let closed = close_spec(m, label);
    assert(closed.tabs =~= Seq::<TabInfoView>::empty());
    let k = (m.counter + 1) as nat;
    let m2 = TabsModelView { counter: (m.counter + 1) as u32, ..closed };
    law_record_keeps_well_formed(m2, k, home);
    let reopened = record_spec(m2, tab_label(k), home);
    assert(reopened.tabs =~= seq![TabInfoView { label: tab_label(k), title: "New Tab"@, url: home }]);
}

/// Closing a tab in a well-formed model. The tab goes and the others keep
/// their order. Where the closed tab was active, the tab that followed it
/// becomes active, or, where it was the last of two or more, the tab before
/// it; otherwise the active tab stays.
pub proof fn law_close_activates_neighbour(m: TabsModelView, i: int)
    requires
        well_formed(m),
        0 <= i < m.tabs.len(),
    ensures
        ({
            let c = close_spec(m, m.tabs[i].label);
            &&& c.tabs == m.tabs.remove(i)
            &&& c.counter == m.counter
            &&& m.active != m.tabs[i].label ==> c.active == m.active
            &&& m.active == m.tabs[i].label && i + 1 < m.tabs.len() ==> c.active == m.tabs[i + 1].label
            &&& m.active == m.tabs[i].label && i + 1 == m.tabs.len() && m.tabs.len() >= 2
                ==> c.active == m.tabs[i - 1].label
            &&& m.active == m.tabs[i].label && m.tabs.len() == 1 ==> c.active.len() == 0
        }),
{
    let label = m.tabs[i].label;
    assert forall|j: int| 0 <= j < i implies !has_label(label)(#[trigger] m.tabs[j]) by {
        assert(m.tabs[j].label != m.tabs[i].label);
    }
    lemma_first_where_at(m.tabs, has_label(label), i);
    let rest = m.tabs.remove(i);
    if i + 1 < m.tabs.len() {
        assert(rest[i] == m.tabs[i + 1]);
    }
    if i + 1 == m.tabs.len() && m.tabs.len() >= 2 {
        assert(rest[i - 1] == m.tabs[i - 1]);
    }
}

/// A report from an existing tab sets its title to the reported title
/// whenever that is not blank, and its URL to the reported URL whenever that
/// is not blank, each independently of the other; blank values leave the old
/// ones. The label, every other tab and the active tab stay.
pub proof fn law_report_updates_tab(m: TabsModelView, i: int, title: Seq<char>, url: Seq<char>)
    requires
        well_formed(m),
        0 <= i < m.tabs.len(),
    ensures
        ({
            let r = report_spec(m, m.tabs[i].label, title, url);
            &&& r.tabs.len() == m.tabs.len()
            &&& r.tabs[i].label == m.tabs[i].label
            &&& r.tabs[i].title == if trim(title).len() > 0 {
                title
            } else {
                m.tabs[i].title
            }
            &&& r.tabs[i].url == if trim(url).len() > 0 {
                url
            } else {
                m.tabs[i].url
            }
            &&& forall|j: int| 0 <= j < m.tabs.len() && j != i ==> r.tabs[j] == m.tabs[j]
            &&& r.active == m.active
            &&& r.counter == m.counter
        }),
{
    let label = m.tabs[i].label;
    assert forall|j: int| 0 <= j < i implies !has_label(label)(#[trigger] m.tabs[j]) by {
        assert(m.tabs[j].label != m.tabs[i].label);
    }
    lemma_first_where_at(m.tabs, has_label(label), i);
}

/// A title/URL report keeps the model well formed.
pub proof fn law_report_keeps_well_formed(m: TabsModelView, label: Seq<char>, title: Seq<char>, url: Seq<char>)
    requires
        well_formed(m),
    ensures
        well_formed(report_spec(m, label, title, url)),
{
    lemma_first_where_props(m.tabs, has_label(label));
    let i = first_where(m.tabs, has_label(label));
    if i >= 0 {
        let m2 = report_spec(m, label, title, url);
        assert forall|a: int| 0 <= a < m2.tabs.len() implies (#[trigger] m2.tabs[a]).label
            == m.tabs[a].label by {}
        assert forall|a: int| 0 <= a < m2.tabs.len() implies exists|k: nat|
            1 <= k <= m2.counter && (#[trigger] m2.tabs[a]).label == #[trigger] tab_label(k) by {
            assert(m2.tabs[a].label == m.tabs[a].label);
        }
        let a = choose|a: int| 0 <= a < m.tabs.len() && #[trigger] m.tabs[a].label == m.active;
        if m.tabs.len() > 0 {
            assert(m2.tabs[a].label == m2.active);
        }
    }
}

} // verus!
