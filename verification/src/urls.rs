//! URL handling shared by bookmarks and sessions: the parsed components that
//! the `url` crate hands back, the web-scheme test, and the canonical form used
//! to detect duplicate bookmarks.

use vstd::prelude::*;

use crate::text::{
    chars_eq, chars_of, decimal, lower, lower_chars, lower_trimmed, push_char, push_chars,
    push_decimal, push_str, string_of, trim, trim_end_char, trim_string,
};

verus! {

/// The components of a parsed URL that this library reads.
pub struct UrlParts {
    pub scheme: String,
    pub host: Option<String>,
    pub port: Option<u16>,
    pub path: String,
    pub query: Option<String>,
}

/// The mathematical view of [`UrlParts`].
pub struct UrlPartsView {
    pub scheme: Seq<char>,
    pub host: Option<Seq<char>>,
    pub port: Option<u16>,
    pub path: Seq<char>,
    pub query: Option<Seq<char>>,
}

/// The chars of an optional string.
pub open spec fn opt_chars(o: Option<String>) -> Option<Seq<char>> {
    match o {
        Some(s) => Some(s@),
        None => None,
    }
}

impl View for UrlParts {
    type V = UrlPartsView;

    open spec fn view(&self) -> UrlPartsView {
        UrlPartsView {
            scheme: self.scheme@,
            host: opt_chars(self.host),
            port: self.port,
            path: self.path@,
            query: opt_chars(self.query),
        }
    }
}

/// The view of an optional parse result.
pub open spec fn parsed_view(o: Option<UrlParts>) -> Option<UrlPartsView> {
    match o {
        Some(p) => Some(p@),
        None => None,
    }
}

/// What `url::Url::parse` gives for `input`: `None` where it returns an
/// error, else the scheme, host, port, path and query of the parsed URL.
pub uninterp spec fn url_parse(input: Seq<char>) -> Option<UrlPartsView>;

/// An ASCII letter.
pub open spec fn is_ascii_letter(c: char) -> bool {
    ('a' <= c && c <= 'z') || ('A' <= c && c <= 'Z')
}

/// `input` begins with `k >= 1` ASCII letters followed by `:`.
pub open spec fn letters_then_colon(input: Seq<char>, k: int) -> bool {
    &&& 1 <= k < input.len()
    &&& input[k] == ':'
    &&& forall|i: int| 0 <= i < k ==> is_ascii_letter(#[trigger] input[i])
}

/// Two facts of `url::Url::parse` that its scheme state shows
/// (url-2.5.8, `Parser::parse_url` and `Parser::parse_scheme`): without a
/// base URL an empty input fails, and where the input begins with ASCII
/// letters and a `:`, a successful parse has those letters, in lower case,
/// as its scheme.
pub open spec fn scheme_facts(input: Seq<char>, parsed: Option<UrlPartsView>) -> bool {
    &&& input.len() == 0 ==> parsed is None
    &&& forall|k: int|
        #![trigger letters_then_colon(input, k)]
        letters_then_colon(input, k) && parsed is Some ==> parsed->Some_0.scheme == lower(
            input.take(k),
        )
}

/// Parses `input` with `url::Url::parse` and reads back `scheme()`,
/// `host_str()`, `port()`, `path()` and `query()`. The contract claims that
/// the result is the one [`url_parse`] names for the input, and the two
/// facts of [`scheme_facts`]; the rest of what the WHATWG parser computes is
/// left to the `url` crate.
#[verifier::external_body]
pub(crate) fn parse_url(input: &str) -> (r: Option<UrlParts>)
    ensures
        parsed_view(r) == url_parse(input@),
        scheme_facts(input@, parsed_view(r)),
{
    match url::Url::parse(input) {
        Ok(u) => Some(
            UrlParts {
                scheme: u.scheme().to_string(),
                host: u.host_str().map(String::from),
                port: u.port(),
                path: u.path().to_string(),
                query: u.query().map(String::from),
            },
        ),
        Err(_) => None,
    }
}

// ---------------------------------------------------------------------------
// Specifications
// ---------------------------------------------------------------------------

/// The scheme of a parse result is `http`, `https` or `file`, in any case.
pub open spec fn is_web_scheme(parsed: Option<UrlPartsView>) -> bool {
    match parsed {
        Some(p) => {
            let s = lower(p.scheme);
            s == "http"@ || s == "https"@ || s == "file"@
        },
        None => false,
    }
}

/// `":<port>"` when a port is present, else nothing.
pub open spec fn port_suffix(port: Option<u16>) -> Seq<char> {
    match port {
        Some(p) => seq![':'] + decimal(p as nat),
        None => Seq::empty(),
    }
}

/// `"?<query>"` when a query is present, else nothing.
pub open spec fn query_suffix(query: Option<Seq<char>>) -> Seq<char> {
    match query {
        Some(q) => seq!['?'] + q,
        None => Seq::empty(),
    }
}

/// The host, or nothing.
pub open spec fn host_or_empty(host: Option<Seq<char>>) -> Seq<char> {
    match host {
        Some(h) => h,
        None => Seq::empty(),
    }
}

/// The canonical form of `raw` given the parse result of its trimmed text:
/// lower-case scheme and host, the port, the path without trailing slashes and
/// the query (the fragment is dropped); where the parse failed, the trimmed
/// text in lower case.
pub open spec fn normalized_from(raw: Seq<char>, parsed: Option<UrlPartsView>) -> Seq<char> {
    match parsed {
        Some(p) => lower(p.scheme) + "://"@ + lower(host_or_empty(p.host)) + port_suffix(p.port)
            + trim_end_char(p.path, '/') + query_suffix(p.query),
        None => lower(trim(raw)),
    }
}

/// The canonical form of `url` used for duplicate detection.
pub open spec fn normalized(url: Seq<char>) -> Seq<char> {
    normalized_from(url, url_parse(trim(url)))
}

/// The trimmed text of `url` parses with a web scheme.
pub open spec fn parses_as_web(url: Seq<char>) -> bool {
    is_web_scheme(url_parse(trim(url)))
}

// ---------------------------------------------------------------------------
// Executable functions
// ---------------------------------------------------------------------------

/// Parses the trimmed text of `url`.
pub fn parse_trimmed(url: &str) -> (r: Option<UrlParts>)
    ensures
        parsed_view(r) == url_parse(trim(url@)),
        scheme_facts(trim(url@), parsed_view(r)),
{
    let t = trim_string(url);
    parse_url(t.as_str())
}

/// Whether a parse result has a web scheme (`http`, `https` or `file`, in any case).
pub fn web_scheme(parsed: &Option<UrlParts>) -> (r: bool)
    ensures
        r == is_web_scheme(parsed_view(*parsed)),
{
    match parsed {
        Some(p) => {
            let sv = chars_of(p.scheme.as_str());
            let s = lower_chars(&sv, 0, sv.len());
            assert(sv@.subrange(0, sv@.len() as int) =~= sv@);
            chars_eq(&s, "http") || chars_eq(&s, "https") || chars_eq(&s, "file")
        },
        None => false,
    }
}

/// Appends `lower(s)` to `out`.
pub fn push_lower(out: &mut String, s: &str)
    ensures
        final(out)@ == old(out)@ + lower(s@),
{
    let v = chars_of(s);
    let l = lower_chars(&v, 0, v.len());
    assert(v@.subrange(0, v@.len() as int) =~= v@);
    push_chars(out, &l, 0, l.len());
    assert(l@.subrange(0, l@.len() as int) =~= l@);
}

/// The end of `trim_end_char(v, c)` inside `v`.
pub fn trim_end_char_bound(v: &Vec<char>, c: char) -> (r: usize)
    ensures
        r <= v.len(),
        v@.subrange(0, r as int) == trim_end_char(v@, c),
{
    let mut j = v.len();
    assert(v@.subrange(0, j as int) =~= v@);
    while j > 0 && v[j - 1] == c
        invariant
            j <= v.len(),
            trim_end_char(v@, c) == trim_end_char(v@.subrange(0, j as int), c),
        decreases j,
    {
        assert(v@.subrange(0, j as int).drop_last() =~= v@.subrange(0, j - 1));
        j = j - 1;
    }
    j
}

/// The canonical form of `url` from the parse result of its trimmed text.
pub fn normalize_parsed(url: &str, parsed: &Option<UrlParts>) -> (r: String)
    ensures
        r@ == normalized_from(url@, parsed_view(*parsed)),
{
    match parsed {
        Some(p) => {
            let mut out = String::new();
            push_lower(&mut out, p.scheme.as_str());
            push_str(&mut out, "://");
            let ghost after_sep = out@;
            match &p.host {
                Some(h) => {
                    push_lower(&mut out, h.as_str());
                },
                None => {
                    assert(lower(Seq::<char>::empty()) =~= Seq::<char>::empty());
                    assert(out@ =~= after_sep + lower(Seq::<char>::empty()));
                },
            }
            let ghost after_host = out@;
            match p.port {
                Some(n) => {
                    push_char(&mut out, ':');
                    push_decimal(&mut out, n as u64);
                    assert(out@ =~= after_host + port_suffix(p.port));
                },
                None => {
                    assert(out@ =~= after_host + port_suffix(p.port));
                },
            }
            let pv = chars_of(p.path.as_str());
            let e = trim_end_char_bound(&pv, '/');
            push_chars(&mut out, &pv, 0, e);
            let ghost after_path = out@;
            match &p.query {
                Some(q) => {
                    push_char(&mut out, '?');
                    push_str(&mut out, q.as_str());
                    assert(out@ =~= after_path + query_suffix(opt_chars(p.query)));
                },
                None => {
                    assert(out@ =~= after_path + query_suffix(opt_chars(p.query)));
                },
            }
            assert(out@ =~= normalized_from(url@, parsed_view(*parsed)));
            out
        },
        None => {
            let l = lower_trimmed(url);
            string_of(&l, 0, l.len())
        },
    }
}

} // verus!
