//! The rules around fetching pages: which URLs may be fetched, which
//! stylesheets a page links, how much external CSS is read, how long to wait
//! before a retry, which responses look like a block page, and what the
//! forms of a page hold.
use vstd::prelude::*;

use crate::output::{ElemSpec, SpatialElement, elems_view};
use crate::dom::{attr_lookup, attr_of, lemma_dv_children, lookup_attr, view_attrs, DomNode, DomView, text_content_spec};
use crate::text::{
    chars_of, contains, contains_str, copy_string, decimal, ends_with, ends_with_str, push_decimal,
    push_str, spec_to_lowercase, starts_with, str_eq, to_lowercase, to_owned, trim, trim_str,
    view_strings,
};

verus! {

broadcast use vstd::string::group_string_axioms;

// ---------------------------------------------------------------------------
// Errors
// ---------------------------------------------------------------------------

/// What can go wrong when fetching or acting on a page.
#[derive(Debug)]
pub enum FetchError {
    InvalidUrl(String),
    BlockedUrl(String),
    Network(String),
    HttpError(u16),
    ActionError(String),
    /// Bytes found (or announced), and the limit.
    ResponseTooLarge(u64, usize),
}

pub enum FetchErrorView {
    InvalidUrl(Seq<char>),
    BlockedUrl(Seq<char>),
    Network(Seq<char>),
    HttpError(u16),
    ActionError(Seq<char>),
    ResponseTooLarge(u64, usize),
}

impl FetchError {
    pub open spec fn fv(&self) -> FetchErrorView {
        match self {
            FetchError::InvalidUrl(s) => FetchErrorView::InvalidUrl(s@),
            FetchError::BlockedUrl(s) => FetchErrorView::BlockedUrl(s@),
            FetchError::Network(s) => FetchErrorView::Network(s@),
            FetchError::HttpError(c) => FetchErrorView::HttpError(*c),
            FetchError::ActionError(s) => FetchErrorView::ActionError(s@),
            FetchError::ResponseTooLarge(a, b) => FetchErrorView::ResponseTooLarge(*a, *b),
        }
    }

    pub open spec fn message_spec(&self) -> Seq<char> {
        match self {
            FetchError::InvalidUrl(e) => "Invalid URL: "@ + e@,
            FetchError::BlockedUrl(u) => "Blocked URL: "@ + u@,
            FetchError::Network(e) => "Network error: "@ + e@,
            FetchError::HttpError(c) => "HTTP error: "@ + decimal(*c as nat),
            FetchError::ActionError(e) => "Action error: "@ + e@,
            FetchError::ResponseTooLarge(found, max) => "Response too large: "@ + decimal(
                *found as nat,
            ) + " bytes (max "@ + decimal(*max as nat) + ")"@,
        }
    }

    /// The human-readable description of the error.
    pub fn message(&self) -> (r: String)
        ensures
            r@ == self.message_spec(),
    {
        match self {
            FetchError::InvalidUrl(e) => {
                let mut s = to_owned("Invalid URL: ");
                push_str(&mut s, e.as_str());
                s
            },
            FetchError::BlockedUrl(u) => {
                let mut s = to_owned("Blocked URL: ");
                push_str(&mut s, u.as_str());
                s
            },
            FetchError::Network(e) => {
                let mut s = to_owned("Network error: ");
                push_str(&mut s, e.as_str());
                s
            },
            FetchError::HttpError(c) => {
                let mut s = to_owned("HTTP error: ");
                push_decimal(&mut s, *c as u64);
                s
            },
            FetchError::ActionError(e) => {
                let mut s = to_owned("Action error: ");
                push_str(&mut s, e.as_str());
                s
            },
            FetchError::ResponseTooLarge(found, max) => {
                let mut s = to_owned("Response too large: ");
                push_decimal(&mut s, *found);
                push_str(&mut s, " bytes (max ");
                push_decimal(&mut s, *max as u64);
                push_str(&mut s, ")");
                s
            },
        }
    }
}

// ---------------------------------------------------------------------------
// URLs
// ---------------------------------------------------------------------------

/// The host of a URL.
#[derive(Debug)]
pub enum UrlHost {
    Domain(String),
    Ipv4([u8; 4]),
    /// The eight 16-bit segments.
    Ipv6([u16; 8]),
}

/// What the fetching rules read of a parsed URL.
#[derive(Debug)]
pub struct UrlParts {
    /// The serialization.
    pub href: String,
    pub scheme: String,
    /// The host as text (an IPv6 address in brackets), if any.
    pub host_str: Option<String>,
    pub host: Option<UrlHost>,
}

pub enum HostView {
    Domain(Seq<char>),
    Ipv4([u8; 4]),
    Ipv6([u16; 8]),
}

pub struct UrlView {
    pub href: Seq<char>,
    pub scheme: Seq<char>,
    pub host_str: Option<Seq<char>>,
    pub host: Option<HostView>,
}

impl UrlParts {
    pub open spec fn uv(&self) -> UrlView {
        UrlView {
            href: self.href@,
            scheme: self.scheme@,
            host_str: match self.host_str {
                Some(h) => Some(h@),
                None => None,
            },
            host: match self.host {
                Some(UrlHost::Domain(d)) => Some(HostView::Domain(d@)),
                Some(UrlHost::Ipv4(o)) => Some(HostView::Ipv4(o)),
                Some(UrlHost::Ipv6(s)) => Some(HostView::Ipv6(s)),
                None => None,
            },
        }
    }
}

/// What `url::Url::parse` makes of a text: the parts of the URL, or the
/// text of the parse error.
pub uninterp spec fn url_parse_result(s: Seq<char>) -> Result<UrlView, Seq<char>>;

/// What `url::Url::join` gives for a base URL (the serialization of a parsed
/// URL) and a reference: the parts of the joined URL, or the text of the
/// parse error.
pub uninterp spec fn url_join_result(base: Seq<char>, reference: Seq<char>) -> Result<
    UrlView,
    Seq<char>,
>;

/// Calls `url::Url::parse`; the contract names the outcome: the URL's
/// serialization, scheme, host text and host, or the error's text.
#[verifier::external_body]
fn parse_url(s: &str) -> (r: Result<UrlParts, String>)
    ensures
        match r {
            Ok(p) => url_parse_result(s@) == Ok::<UrlView, Seq<char>>(p.uv()),
            Err(e) => url_parse_result(s@) == Err::<UrlView, Seq<char>>(e@),
        },
{
    let u = url::Url::parse(s).map_err(|e| e.to_string())?;
    let host = match u.host() {
        Some(url::Host::Domain(d)) => Some(UrlHost::Domain(d.to_string())),
        Some(url::Host::Ipv4(ip)) => Some(UrlHost::Ipv4(ip.octets())),
        Some(url::Host::Ipv6(ip)) => Some(UrlHost::Ipv6(ip.segments())),
        None => None,
    };
    let host_str = u.host_str().map(|h| h.to_string());
    Ok(UrlParts { href: u.to_string(), scheme: u.scheme().to_string(), host_str, host })
}

/// Calls `url::Url::join` on the URL that `base` serializes; the contract
/// names the outcome as `url_join_result` does.
#[verifier::external_body]
pub(crate) fn join_url(base: &str, reference: &str) -> (r: Result<UrlParts, String>)
    ensures
        match r {
            Ok(p) => url_join_result(base@, reference@) == Ok::<UrlView, Seq<char>>(p.uv()),
            Err(e) => url_join_result(base@, reference@) == Err::<UrlView, Seq<char>>(e@),
        },
{
    let u = url::Url::parse(base).and_then(|b| b.join(reference)).map_err(|e| e.to_string())?;
    let host = match u.host() {
        Some(url::Host::Domain(d)) => Some(UrlHost::Domain(d.to_string())),
        Some(url::Host::Ipv4(ip)) => Some(UrlHost::Ipv4(ip.octets())),
        Some(url::Host::Ipv6(ip)) => Some(UrlHost::Ipv6(ip.segments())),
        None => None,
    };
    let host_str = u.host_str().map(|h| h.to_string());
    Ok(UrlParts { href: u.to_string(), scheme: u.scheme().to_string(), host_str, host })
}

/// `localhost`, or a name under `.localhost` or `.local`, in any case.
pub open spec fn local_hostname_spec(host: Seq<char>) -> bool {
    let h = spec_to_lowercase(host);
    h == "localhost"@ || ends_with(h, ".localhost"@) || ends_with(h, ".local"@)
}

pub fn is_local_hostname(host: &str) -> (b: bool)
    ensures
        b == local_hostname_spec(host@),
{
    let h = to_lowercase(host);
    str_eq(h.as_str(), "localhost") || ends_with_str(h.as_str(), ".localhost") || ends_with_str(
        h.as_str(),
        ".local",
    )
}

/// Private, loopback, link-local, shared, reserved, multicast and
/// documentation IPv4 ranges.
pub open spec fn private_ipv4_spec(o: [u8; 4]) -> bool {
    ||| o[0] == 10
    ||| o[0] == 127
    ||| (o[0] == 169 && o[1] == 254)
    ||| (o[0] == 172 && 16 <= o[1] <= 31)
    ||| (o[0] == 192 && o[1] == 168)
    ||| (o[0] == 100 && 64 <= o[1] <= 127)
    ||| o[0] == 0
    ||| 224 <= o[0]
    ||| (o[0] == 192 && o[1] == 0 && o[2] == 2)
    ||| (o[0] == 198 && o[1] == 51 && o[2] == 100)
    ||| (o[0] == 203 && o[1] == 0 && o[2] == 113)
}

pub fn is_private_ipv4(o: [u8; 4]) -> (b: bool)
    ensures
        b == private_ipv4_spec(o),
{
    let a = o[0];
    let b = o[1];
    let c = o[2];
    a == 10 || a == 127 || (a == 169 && b == 254) || (a == 172 && 16 <= b && b <= 31) || (a == 192
        && b == 168) || (a == 100 && 64 <= b && b <= 127) || a == 0 || 224 <= a || (a == 192 && b
        == 0 && c == 2) || (a == 198 && b == 51 && c == 100) || (a == 203 && b == 0 && c == 113)
}

/// Loopback (`::1`), unspecified (`::`), unique local (`fc00::/7`),
/// link-local (`fe80::/10`) and multicast (`ff00::/8`) IPv6 addresses.
pub open spec fn private_ipv6_spec(s: [u16; 8]) -> bool {
    let zero_prefix = s[0] == 0 && s[1] == 0 && s[2] == 0 && s[3] == 0 && s[4] == 0 && s[5] == 0
        && s[6] == 0;
    ||| (zero_prefix && (s[7] == 1 || s[7] == 0))
    ||| (s[0] & 0xfe00u16) == 0xfc00u16
    ||| (s[0] & 0xffc0u16) == 0xfe80u16
    ||| (s[0] & 0xff00u16) == 0xff00u16
}

pub fn is_private_ipv6(s: [u16; 8]) -> (b: bool)
    ensures
        b == private_ipv6_spec(s),
{
    let zero_prefix = s[0] == 0 && s[1] == 0 && s[2] == 0 && s[3] == 0 && s[4] == 0 && s[5] == 0
        && s[6] == 0;
    let first = s[0];
    (zero_prefix && (s[7] == 1 || s[7] == 0)) || (first & 0xfe00u16) == 0xfc00u16 || (first
        & 0xffc0u16) == 0xfe80u16 || (first & 0xff00u16) == 0xff00u16
}

/// Whether a URL may be fetched: only `http` and `https` (unless other
/// schemes are allowed), and, unless private networks are allowed, no local
/// host name, no private address and no URL without a host.
pub open spec fn url_allowed_spec(u: UrlView, allow_private: bool, allow_non_http: bool) -> bool {
    if !allow_non_http && !(u.scheme == "http"@ || u.scheme == "https"@) {
        false
    } else if allow_private {
        true
    } else if u.host_str matches Some(h) && local_hostname_spec(h) {
        false
    } else {
        match u.host {
            Some(HostView::Ipv4(o)) => !private_ipv4_spec(o),
            Some(HostView::Ipv6(s)) => !private_ipv6_spec(s),
            Some(HostView::Domain(_)) => true,
            None => false,
        }
    }
}

pub fn is_url_allowed(url: &UrlParts, allow_private: bool, allow_non_http: bool) -> (b: bool)
    ensures
        b == url_allowed_spec(url.uv(), allow_private, allow_non_http),
{
    if !allow_non_http && !(str_eq(url.scheme.as_str(), "http") || str_eq(
        url.scheme.as_str(),
        "https",
    )) {
        return false;
    }
    if allow_private {
        return true;
    }
    if let Some(h) = &url.host_str {
        if is_local_hostname(h.as_str()) {
            return false;
        }
    }
    match &url.host {
        Some(UrlHost::Ipv4(o)) => !is_private_ipv4(*o),
        Some(UrlHost::Ipv6(s)) => !is_private_ipv6(*s),
        Some(UrlHost::Domain(_)) => true,
        None => false,
    }
}

pub open spec fn checked_url_spec(s: Seq<char>, allow_private: bool, allow_non_http: bool) -> Result<
    UrlView,
    FetchErrorView,
> {
    match url_parse_result(s) {
        Err(e) => Err(FetchErrorView::InvalidUrl(e)),
        Ok(u) => if url_allowed_spec(u, allow_private, allow_non_http) {
            Ok(u)
        } else {
            Err(FetchErrorView::BlockedUrl(u.href))
        },
    }
}

/// Parses a URL to navigate to: an unparsable one is an invalid URL, one
/// that the rules forbid is blocked (reported by its serialization).
pub fn check_url(url: &str, allow_private: bool, allow_non_http: bool) -> (r: Result<
    UrlParts,
    FetchError,
>)
    ensures
        match r {
            Ok(p) => checked_url_spec(url@, allow_private, allow_non_http) == Ok::<
                UrlView,
                FetchErrorView,
            >(p.uv()),
            Err(e) => checked_url_spec(url@, allow_private, allow_non_http) == Err::<
                UrlView,
                FetchErrorView,
            >(e.fv()),
        },
{
    match parse_url(url) {
        Err(e) => Err(FetchError::InvalidUrl(e)),
        Ok(p) => {
            if is_url_allowed(&p, allow_private, allow_non_http) {
                Ok(p)
            } else {
                Err(FetchError::BlockedUrl(p.href))
            }
        },
    }
}

/// A URL whose host is a private or local address is refused as blocked
/// unless private networks are allowed; with both switches on, every URL
/// that parses is accepted.
pub proof fn law_private_hosts_blocked(s: Seq<char>, allow_non_http: bool)
    ensures
        url_parse_result(s) matches Ok(u) && (match u.host {
            Some(HostView::Ipv4(o)) => private_ipv4_spec(o),
            Some(HostView::Ipv6(x)) => private_ipv6_spec(x),
            _ => false,
        }) ==> checked_url_spec(s, false, allow_non_http) == Err::<UrlView, FetchErrorView>(
            FetchErrorView::BlockedUrl(url_parse_result(s)->Ok_0.href),
        ),
        url_parse_result(s) matches Ok(u) && u.host_str matches Some(h) && local_hostname_spec(h)
            ==> checked_url_spec(s, false, allow_non_http) is Err,
        url_parse_result(s) matches Ok(u) ==> checked_url_spec(s, true, true) == Ok::<
            UrlView,
            FetchErrorView,
        >(u),
{
}

/// A reference resolved against the current page: the joined URL's
/// serialization, or the reference itself when there is no page or the
/// join fails.
pub open spec fn resolve_spec(base: Option<Seq<char>>, reference: Seq<char>) -> Seq<char> {
    match base {
        Some(b) => match url_join_result(b, reference) {
            Ok(u) => u.href,
            Err(_) => reference,
        },
        None => reference,
    }
}

pub fn resolve_url(base: Option<&str>, reference: &str) -> (r: String)
    ensures
        r@ == resolve_spec(
            match base {
                Some(b) => Some(b@),
                None => None,
            },
            reference@,
        ),
{
    match base {
        Some(b) => match join_url(b, reference) {
            Ok(u) => u.href,
            Err(_) => to_owned(reference),
        },
        None => to_owned(reference),
    }
}

/// A link as the page shows it: an absolute `http`/`https` address and a
/// link that leads nowhere (fragment, `javascript:`, `mailto:`, ...) stay
/// as written; any other is resolved against the page's address.
pub open spec fn resolved_href(h: Seq<char>, base: Seq<char>) -> Seq<char> {
    if starts_with(h, "http://"@) || starts_with(h, "https://"@) || inert_href_spec(h) {
        h
    } else {
        resolve_spec(Some(base), h)
    }
}

/// An element with its link resolved against the page's address.
pub open spec fn with_resolved_href(e: ElemSpec, base: Seq<char>) -> ElemSpec {
    ElemSpec {
        href: match e.href {
            Some(h) => Some(resolved_href(h, base)),
            None => None,
        },
        ..e
    }
}

/// Makes the relative links of the elements absolute (see
/// `resolved_href`); nothing else changes.
pub fn resolve_element_urls(els: &mut Vec<SpatialElement>, base: &str)
    ensures
        elems_view(final(els)@) == elems_view(old(els)@).map_values(
            |e: ElemSpec| with_resolved_href(e, base@),
        ),
{
    let ghost ov = elems_view(els@);
    let mut i: usize = 0;
    while i < els.len()
        invariant
            i <= els@.len(),
            ov.len() == els@.len(),
            forall|j: int| 0 <= j < i ==> #[trigger] els@[j].ev() == with_resolved_href(ov[j], base@),
            forall|j: int| i <= j < els@.len() ==> #[trigger] els@[j].ev() == ov[j],
        decreases els.len() - i,
    {
        let new_href = match &els[i].href {
            Some(h) => {
                let hs = h.as_str();
                proof {
                    reveal_strlit("http://");
                    reveal_strlit("https://");
                }
                if crate::text::starts_with_str(hs, "http://") || crate::text::starts_with_str(
                    hs,
                    "https://",
                ) || is_inert_href(hs) {
                    Some(copy_string(h))
                } else {
                    Some(resolve_url(Some(base), hs))
                }
            },
            None => None,
        };
        let mut e = els.remove(i);
        proof {
            assert(e.ev() == ov[i as int]);
        }
        e.href = new_href;
        els.insert(i, e);
        i = i + 1;
    }
    proof {
        assert(elems_view(els@) =~= ov.map_values(|e: ElemSpec| with_resolved_href(e, base@)));
    }
}

/// The ad, analytics and font hosts whose resources are not fetched.
pub open spec fn default_patterns_spec() -> Seq<Seq<char>> {
    seq![
        "doubleclick.net"@,
        "googlesyndication.com"@,
        "googleadservices.com"@,
        "adservice.google"@,
        "ads.facebook"@,
        "analytics.google"@,
        "google-analytics.com"@,
        "googletagmanager.com"@,
        "facebook.net/en_US/fbevents"@,
        "hotjar.com"@,
        "segment.io"@,
        "mixpanel.com"@,
        "amplitude.com"@,
        "fonts.googleapis.com"@,
        "fonts.gstatic.com"@,
        "use.typekit.net"@,
    ]
}

pub fn default_blocked_patterns() -> (r: Vec<String>)
    ensures
        view_strings(r@) == default_patterns_spec(),
{
    let mut v: Vec<String> = Vec::new();
    v.push(to_owned("doubleclick.net"));
    v.push(to_owned("googlesyndication.com"));
    v.push(to_owned("googleadservices.com"));
    v.push(to_owned("adservice.google"));
    v.push(to_owned("ads.facebook"));
    v.push(to_owned("analytics.google"));
    v.push(to_owned("google-analytics.com"));
    v.push(to_owned("googletagmanager.com"));
    v.push(to_owned("facebook.net/en_US/fbevents"));
    v.push(to_owned("hotjar.com"));
    v.push(to_owned("segment.io"));
    v.push(to_owned("mixpanel.com"));
    v.push(to_owned("amplitude.com"));
    v.push(to_owned("fonts.googleapis.com"));
    v.push(to_owned("fonts.gstatic.com"));
    v.push(to_owned("use.typekit.net"));
    proof {
        assert(view_strings(v@) =~= default_patterns_spec());
    }
    v
}

/// Whether a URL contains one of the blocked patterns.
pub open spec fn blocked_spec(url: Seq<char>, patterns: Seq<Seq<char>>) -> bool {
    exists|i: int| 0 <= i < patterns.len() && contains(url, #[trigger] patterns[i])
}

pub fn matches_blocked_pattern(url: &str, patterns: &Vec<String>) -> (b: bool)
    ensures
        b == blocked_spec(url@, view_strings(patterns@)),
{
    let ghost pv = view_strings(patterns@);
    let mut i: usize = 0;
    while i < patterns.len()
        invariant
            i <= patterns@.len(),
            pv == view_strings(patterns@),
            forall|j: int| 0 <= j < i ==> !contains(url@, #[trigger] pv[j]),
        decreases patterns.len() - i,
    {
        if contains_str(url, patterns[i].as_str()) {
            proof {
                assert(pv[i as int] == patterns@[i as int]@);
            }
            return true;
        }
        proof {
            assert(pv[i as int] == patterns@[i as int]@);
        }
        i = i + 1;
    }
    false
}

// ---------------------------------------------------------------------------
// External stylesheets
// ---------------------------------------------------------------------------

/// Whether a node is `<link>` whose `rel` mentions `stylesheet` (any case).
pub open spec fn stylesheet_link(v: DomView) -> bool {
    v.tag == "link"@ && match attr_of(v, "rel"@) {
        Some(r) => contains(spec_to_lowercase(r), "stylesheet"@),
        None => false,
    }
}

/// The `href` of every stylesheet link of a tree, in document order.
pub open spec fn link_hrefs(v: DomView) -> Seq<Seq<char>>
    decreases v, 0int,
{
    (if stylesheet_link(v) {
        match attr_of(v, "href"@) {
            Some(h) => seq![h],
            None => Seq::empty(),
        }
    } else {
        Seq::empty()
    }) + link_hrefs_upto(v.children, v.children.len() as int)
}

pub open spec fn link_hrefs_upto(cs: Seq<DomView>, k: int) -> Seq<Seq<char>>
    decreases cs, k,
{
    if k <= 0 || k > cs.len() {
        Seq::empty()
    } else {
        link_hrefs_upto(cs, k - 1) + link_hrefs(cs[k - 1])
    }
}

fn collect_link_hrefs(node: &DomNode, out: &mut Vec<String>)
    ensures
        view_strings(final(out)@) == view_strings(old(out)@) + link_hrefs(node.dv()),
    decreases node,
{
    let ghost v = node.dv();
    let ghost base = view_strings(out@);
    proof {
        lemma_dv_children(node);
    }
    if str_eq(node.tag.as_str(), "link") {
        let is_stylesheet = match lookup_attr(&node.attributes, "rel") {
            Some(r) => contains_str(to_lowercase(r).as_str(), "stylesheet"),
            None => false,
        };
        if is_stylesheet {
            if let Some(href) = lookup_attr(&node.attributes, "href") {
                out.push(to_owned(href));
            }
        }
    }
    let ghost mid = view_strings(out@);
    proof {
        assert(mid =~= base + (if stylesheet_link(v) {
            match attr_of(v, "href"@) {
                Some(h) => seq![h],
                None => Seq::<Seq<char>>::empty(),
            }
        } else {
            Seq::<Seq<char>>::empty()
        }));
    }
    let ghost cs = v.children;
    let mut i: usize = 0;
    while i < node.children.len()
        invariant
            i <= node.children@.len(),
            v == node.dv(),
            cs == v.children,
            cs == crate::dom::children_views(node.children@),
            view_strings(out@) == mid + link_hrefs_upto(cs, i as int),
        decreases node.children.len() - i,
    {
        collect_link_hrefs(&node.children[i], out);
        proof {
            assert(cs[i as int] == node.children@[i as int].dv());
            assert(view_strings(out@) =~= mid + link_hrefs_upto(cs, i + 1));
        }
        i = i + 1;
    }
    proof {
        assert(view_strings(out@) =~= base + link_hrefs(v));
    }
}

/// The stylesheet links of a page, in document order.
pub fn stylesheet_links(dom: &DomNode) -> (r: Vec<String>)
    ensures
        view_strings(r@) == link_hrefs(dom.dv()),
{
    let mut out: Vec<String> = Vec::new();
    collect_link_hrefs(dom, &mut out);
    proof {
        assert(view_strings(out@) =~= link_hrefs(dom.dv()));
    }
    out
}

/// Where an external stylesheet link leads, if it may be fetched: joined
/// with the page's URL, allowed by the URL rules, and matching no blocked
/// pattern.
pub open spec fn css_target_spec(
    base: Seq<char>,
    href: Seq<char>,
    patterns: Seq<Seq<char>>,
    allow_private: bool,
    allow_non_http: bool,
) -> Option<Seq<char>> {
    match url_join_result(base, href) {
        Ok(u) => if url_allowed_spec(u, allow_private, allow_non_http) && !blocked_spec(
            u.href,
            patterns,
        ) {
            Some(u.href)
        } else {
            None
        },
        Err(_) => None,
    }
}

pub fn css_link_target(
    base: &str,
    href: &str,
    patterns: &Vec<String>,
    allow_private: bool,
    allow_non_http: bool,
) -> (r: Option<String>)
    ensures
        match r {
            Some(s) => css_target_spec(
                base@,
                href@,
                view_strings(patterns@),
                allow_private,
                allow_non_http,
            ) == Some(s@),
            None => css_target_spec(
                base@,
                href@,
                view_strings(patterns@),
                allow_private,
                allow_non_http,
            ) is None,
        },
{
    match join_url(base, href) {
        Ok(u) => {
            if is_url_allowed(&u, allow_private, allow_non_http) && !matches_blocked_pattern(
                u.href.as_str(),
                patterns,
            ) {
                Some(u.href)
            } else {
                None
            }
        },
        Err(_) => None,
    }
}

/// The byte budget for external CSS across a page.
pub struct CssBudget {
    pub remaining: usize,
}

impl CssBudget {
    /// How many bytes the next file may have: nothing once the budget is
    /// spent, else the smaller of what remains and the per-file limit.
    pub fn next_limit(&self, per_file: usize) -> (r: usize)
        ensures
            r == if self.remaining < per_file {
                self.remaining
            } else {
                per_file
            },
    {
        if self.remaining < per_file {
            self.remaining
        } else {
            per_file
        }
    }

    /// Counts `n` bytes read against the budget (never below zero).
    pub fn spend(&mut self, n: usize)
        ensures
            final(self).remaining == if n <= old(self).remaining {
                (old(self).remaining - n) as usize
            } else {
                0
            },
    {
        self.remaining = self.remaining.saturating_sub(n);
    }
}

// ---------------------------------------------------------------------------
// Retrying
// ---------------------------------------------------------------------------

/// The wait before retry number `attempt` (from 0): the base (at least
/// 50 ms) doubled per attempt up to six times, at most 30 s, and at least
/// what a `Retry-After` header asked for.
pub open spec fn retry_delay_spec(base_ms: u64, attempt: usize, retry_after_secs: Option<u64>) -> int {
    let base: int = if base_ms < 50 {
        50
    } else {
        base_ms as int
    };
    let e: int = if attempt < 6 {
        attempt as int
    } else {
        6
    };
    let exp: int = vstd::arithmetic::power2::pow2(e as nat) as int;
    let prod = base * exp;
    let capped: int = if prod > 30000 {
        30000
    } else {
        prod
    };
    match retry_after_secs {
        Some(s) => {
            let w: int = if s as int * 1000 > u64::MAX {
                u64::MAX as int
            } else {
                s as int * 1000
            };
            if w > capped {
                w
            } else {
                capped
            }
        },
        None => capped,
    }
}

pub fn retry_delay_ms(base_ms: u64, attempt: usize, retry_after_secs: Option<u64>) -> (r: u64)
    ensures
        r as int == retry_delay_spec(base_ms, attempt, retry_after_secs),
{
    let base = if base_ms < 50 {
        50
    } else {
        base_ms
    };
    let e: u64 = if attempt < 6 {
        attempt as u64
    } else {
        6
    };
    let exp: u64 = if e == 0 {
        1
    } else if e == 1 {
        2
    } else if e == 2 {
        4
    } else if e == 3 {
        8
    } else if e == 4 {
        16
    } else if e == 5 {
        32
    } else {
        64
    };
    proof {
        vstd::arithmetic::power2::lemma2_to64();
    }
    let capped = if base > 30000 / exp {
        30000
    } else {
        let p = base * exp;
        if p > 30000 {
            30000
        } else {
            p
        }
    };
    proof {
        if base > 30000u64 / exp {
            assert(base * exp > 30000) by (nonlinear_arith)
                requires
                    base > 30000u64 / exp,
                    exp > 0,
            ;
        }
    }
    match retry_after_secs {
        Some(s) => {
            let w = match s.checked_mul(1000) {
                Some(x) => x,
                None => u64::MAX,
            };
            if w > capped {
                w
            } else {
                capped
            }
        },
        None => capped,
    }
}

/// The back-off wait is at least 50 ms and at most 30 s without a
/// `Retry-After`, never shrinks from one attempt to the next, and never
/// falls short of what a `Retry-After` header asked for.
pub proof fn law_retry_delay_bounds(base_ms: u64, attempt: usize, secs: u64)
    requires
        attempt < usize::MAX,
    ensures
        50 <= retry_delay_spec(base_ms, attempt, None) <= 30000,
        retry_delay_spec(base_ms, attempt, None) <= retry_delay_spec(
            base_ms,
            (attempt + 1) as usize,
            None,
        ),
        retry_delay_spec(base_ms, attempt, Some(secs)) >= retry_delay_spec(base_ms, attempt, None),
        retry_delay_spec(base_ms, attempt, Some(secs)) >= (if secs * 1000 > u64::MAX {
            u64::MAX as int
        } else {
            secs * 1000
        }),
{
    let base: int = if base_ms < 50 {
        50
    } else {
        base_ms as int
    };
    let e: nat = if attempt < 6 {
        attempt as nat
    } else {
        6
    };
    let e2: nat = if attempt + 1 < 6 {
        (attempt + 1) as nat
    } else {
        6
    };
    vstd::arithmetic::power2::lemma_pow2_pos(e);
    vstd::arithmetic::power2::lemma_pow2_pos(e2);
    if e < e2 {
        vstd::arithmetic::power2::lemma_pow2_strictly_increases(e, e2);
    }
    let p1 = vstd::arithmetic::power2::pow2(e) as int;
    let p2 = vstd::arithmetic::power2::pow2(e2) as int;
    assert(base * p1 >= 50) by (nonlinear_arith)
        requires
            base >= 50,
            p1 >= 1,
    ;
    assert(base * p1 <= base * p2) by (nonlinear_arith)
        requires
            base >= 50,
            p1 <= p2,
    ;
}

/// The seconds of a `Retry-After` header: its trimmed text as a number.
pub fn parse_retry_after(value: &str) -> (r: Option<u64>)
    ensures
        match r {
            Some(n) => crate::text::parse_u64_spec(trim(value@)) == Some(n as nat),
            None => crate::text::parse_u64_spec(trim(value@)) is None,
        },
{
    let t = trim_str(value);
    crate::text::parse_u64(t.as_str())
}

/// Statuses after which a request is tried again.
pub open spec fn retryable_spec(status: u16) -> bool {
    status == 403 || status == 408 || status == 429 || status == 500 || status == 502 || status
        == 503 || status == 504
}

pub fn is_retryable_status(status: u16) -> (b: bool)
    ensures
        b == retryable_spec(status),
{
    status == 403 || status == 408 || status == 429 || status == 500 || status == 502 || status
        == 503 || status == 504
}

/// Whether a page reads like a bot-block page (compared in lower case).
pub open spec fn block_page_spec(html: Seq<char>) -> bool {
    let l = spec_to_lowercase(html);
    contains(l, "captcha"@) || contains(l, "access denied"@) || contains(
        l,
        "verify you are a human"@,
    ) || contains(l, "unusual traffic"@) || contains(l, "cloudflare"@) || contains(
        l,
        "perimeterx"@,
    ) || contains(l, "datadome"@)
}

pub fn looks_blocked(html: &str) -> (b: bool)
    ensures
        b == block_page_spec(html@),
{
    let l = to_lowercase(html);
    let s = l.as_str();
    contains_str(s, "captcha") || contains_str(s, "access denied") || contains_str(
        s,
        "verify you are a human",
    ) || contains_str(s, "unusual traffic") || contains_str(s, "cloudflare") || contains_str(
        s,
        "perimeterx",
    ) || contains_str(s, "datadome")
}

/// The verdict on a response of `found` bytes (announced or read) against
/// a limit of `max` bytes: more than the limit is too large.
pub fn check_response_size(found: u64, max: usize) -> (r: Result<(), FetchError>)
    ensures
        r is Ok <==> found <= max,
        r matches Err(e) ==> e.fv() == FetchErrorView::ResponseTooLarge(found, max),
{
    if found > max as u64 {
        Err(FetchError::ResponseTooLarge(found, max))
    } else {
        Ok(())
    }
}

/// What to do after one attempt at a request.
#[derive(Debug, Clone, Copy, PartialEq, Eq, Structural)]
pub enum RetryStep {
    /// Keep the response.
    Accept,
    /// Wait this many milliseconds, then try again.
    Retry(u64),
    /// Give up with this HTTP status.
    Fail(u16),
}

/// The decision after attempt number `attempts` (from 0) of `max_attempts`:
/// a failed status that is worth retrying, or a page that reads like a
/// block page when `retry_on_blocked` is set, is tried again while attempts
/// remain, after the back-off delay (a failed status honours its
/// `Retry-After`); any other failed status is given up; a page is kept.
pub open spec fn retry_step_spec(
    base_ms: u64,
    attempts: usize,
    max_attempts: usize,
    success: bool,
    status: u16,
    retry_after_secs: Option<u64>,
    page: Seq<char>,
    retry_on_blocked: bool,
) -> RetryStep {
    if !success {
        if retryable_spec(status) && attempts + 1 < max_attempts {
            RetryStep::Retry(retry_delay_spec(base_ms, attempts, retry_after_secs) as u64)
        } else {
            RetryStep::Fail(status)
        }
    } else if retry_on_blocked && block_page_spec(page) && attempts + 1 < max_attempts {
        RetryStep::Retry(retry_delay_spec(base_ms, attempts, None) as u64)
    } else {
        RetryStep::Accept
    }
}

/// One decision of the retry loop; `page` is the body that was read, and is
/// only looked at when the status was a success.
pub fn next_retry_step(
    base_ms: u64,
    attempts: usize,
    max_attempts: usize,
    success: bool,
    status: u16,
    retry_after_secs: Option<u64>,
    page: &str,
    retry_on_blocked: bool,
) -> (r: RetryStep)
    requires
        attempts < max_attempts,
    ensures
        r == retry_step_spec(
            base_ms,
            attempts,
            max_attempts,
            success,
            status,
            retry_after_secs,
            page@,
            retry_on_blocked,
        ),
{
    if !success {
        if is_retryable_status(status) && attempts + 1 < max_attempts {
            RetryStep::Retry(retry_delay_ms(base_ms, attempts, retry_after_secs))
        } else {
            RetryStep::Fail(status)
        }
    } else if retry_on_blocked && attempts + 1 < max_attempts && looks_blocked(page) {
        RetryStep::Retry(retry_delay_ms(base_ms, attempts, None))
    } else {
        RetryStep::Accept
    }
}

/// The user agent of attempt number `attempts`: the one listed for it, or
/// the default once the list is exhausted.
pub fn attempt_user_agent(agents: &Vec<String>, attempts: usize, default_agent: &str) -> (r: String)
    ensures
        r@ == if attempts < agents@.len() {
            agents@[attempts as int]@
        } else {
            default_agent@
        },
{
    if attempts < agents.len() {
        copy_string(&agents[attempts])
    } else {
        to_owned(default_agent)
    }
}

/// Whether a link leads nowhere to navigate to: a fragment, or a
/// `javascript:`, `mailto:`, `tel:` or `data:` link (trimmed, any case).
pub open spec fn inert_href_spec(href: Seq<char>) -> bool {
    let l = spec_to_lowercase(trim(href));
    starts_with(l, "#"@) || starts_with(l, "javascript:"@) || starts_with(l, "mailto:"@)
        || starts_with(l, "tel:"@) || starts_with(l, "data:"@)
}

pub fn is_inert_href(href: &str) -> (b: bool)
    ensures
        b == inert_href_spec(href@),
{
    let t = trim_str(href);
    let l = to_lowercase(t.as_str());
    let s = l.as_str();
    crate::text::starts_with_str(s, "#") || crate::text::starts_with_str(s, "javascript:")
        || crate::text::starts_with_str(s, "mailto:") || crate::text::starts_with_str(s, "tel:")
        || crate::text::starts_with_str(s, "data:")
}


// ---------------------------------------------------------------------------
// Forms
// ---------------------------------------------------------------------------

pub open spec fn sv(o: Option<String>) -> Option<Seq<char>> {
    match o {
        Some(s) => Some(s@),
        None => None,
    }
}

/// A form field: inputs other than buttons, text areas and selects.
#[derive(Debug)]
pub struct FormField {
    pub name: Option<String>,
    pub value: Option<String>,
    pub field_type: String,
    /// Whether this checkbox or radio is checked by default.
    pub checked: bool,
}

/// A submit control: `<button>`, or an `input` of type submit, button or image.
#[derive(Debug)]
pub struct FormButton {
    pub name: Option<String>,
    pub value: Option<String>,
    pub formaction: Option<String>,
    pub text: Option<String>,
}

#[derive(Debug)]
pub struct FormInfo {
    pub action: Option<String>,
    pub method: Option<String>,
    pub fields: Vec<FormField>,
    pub buttons: Vec<FormButton>,
}

pub struct FieldSpec {
    pub name: Option<Seq<char>>,
    pub value: Option<Seq<char>>,
    pub field_type: Seq<char>,
    pub checked: bool,
}

pub struct ButtonSpec {
    pub name: Option<Seq<char>>,
    pub value: Option<Seq<char>>,
    pub formaction: Option<Seq<char>>,
    pub text: Option<Seq<char>>,
}

pub struct FormSpec {
    pub action: Option<Seq<char>>,
    pub method: Option<Seq<char>>,
    pub fields: Seq<FieldSpec>,
    pub buttons: Seq<ButtonSpec>,
}

impl FormField {
    pub open spec fn fv(&self) -> FieldSpec {
        FieldSpec {
            name: sv(self.name),
            value: sv(self.value),
            field_type: self.field_type@,
            checked: self.checked,
        }
    }
}

impl FormButton {
    pub open spec fn bv(&self) -> ButtonSpec {
        ButtonSpec {
            name: sv(self.name),
            value: sv(self.value),
            formaction: sv(self.formaction),
            text: sv(self.text),
        }
    }
}

pub open spec fn fields_view(s: Seq<FormField>) -> Seq<FieldSpec> {
    s.map_values(|f: FormField| f.fv())
}

pub open spec fn buttons_view(s: Seq<FormButton>) -> Seq<ButtonSpec> {
    s.map_values(|b: FormButton| b.bv())
}

impl FormInfo {
    pub open spec fn formv(&self) -> FormSpec {
        FormSpec {
            action: sv(self.action),
            method: sv(self.method),
            fields: fields_view(self.fields@),
            buttons: buttons_view(self.buttons@),
        }
    }
}

pub open spec fn forms_view(s: Seq<FormInfo>) -> Seq<FormSpec> {
    s.map_values(|f: FormInfo| f.formv())
}

/// The first child that is an `<option>` (with `selected`, when `sel`), as
/// its `value` attribute.
pub open spec fn option_from(cs: Seq<DomView>, k: int, sel: bool) -> Option<Option<Seq<char>>>
    decreases cs.len() - k,
{
    if k < 0 || k >= cs.len() {
        None
    } else if cs[k].tag == "option"@ && (!sel || attr_of(cs[k], "selected"@) is Some) {
        Some(attr_of(cs[k], "value"@))
    } else {
        option_from(cs, k + 1, sel)
    }
}

/// The value of a `<select>`: that of its selected option, else of its
/// first option.
pub open spec fn selected_option_spec(v: DomView) -> Option<Seq<char>> {
    match option_from(v.children, 0, true) {
        Some(x) => x,
        None => match option_from(v.children, 0, false) {
            Some(x) => x,
            None => None,
        },
    }
}

/// What one node adds to the fields and buttons of its form.
pub open spec fn own_items(v: DomView, fields: Seq<FieldSpec>, buttons: Seq<ButtonSpec>) -> (
    Seq<FieldSpec>,
    Seq<ButtonSpec>,
) {
    let name = attr_of(v, "name"@);
    let value = attr_of(v, "value"@);
    if v.tag == "input"@ {
        let ft = match attr_of(v, "type"@) {
            Some(t) => t,
            None => "text"@,
        };
        if ft == "submit"@ || ft == "button"@ || ft == "image"@ {
            (
                fields,
                buttons.push(
                    ButtonSpec {
                        name,
                        value,
                        formaction: attr_of(v, "formaction"@),
                        text: value,
                    },
                ),
            )
        } else {
            (
                fields.push(
                    FieldSpec {
                        name,
                        value,
                        field_type: ft,
                        checked: (ft == "checkbox"@ || ft == "radio"@) && attr_of(
                            v,
                            "checked"@,
                        ) is Some,
                    },
                ),
                buttons,
            )
        }
    } else if v.tag == "button"@ {
        (
            fields,
            buttons.push(
                ButtonSpec {
                    name,
                    value,
                    formaction: attr_of(v, "formaction"@),
                    text: Some(text_content_spec(v)),
                },
            ),
        )
    } else if v.tag == "textarea"@ {
        (
            fields.push(
                FieldSpec {
                    name,
                    value: Some(text_content_spec(v)),
                    field_type: "textarea"@,
                    checked: false,
                },
            ),
            buttons,
        )
    } else if v.tag == "select"@ {
        (
            fields.push(
                FieldSpec {
                    name,
                    value: selected_option_spec(v),
                    field_type: "select"@,
                    checked: false,
                },
            ),
            buttons,
        )
    } else {
        (fields, buttons)
    }
}

/// The fields and buttons of a subtree, in document order.
pub open spec fn form_items(v: DomView, fields: Seq<FieldSpec>, buttons: Seq<ButtonSpec>) -> (
    Seq<FieldSpec>,
    Seq<ButtonSpec>,
)
    decreases v, 0int,
{
    let o = own_items(v, fields, buttons);
    form_items_upto(v.children, v.children.len() as int, o.0, o.1)
}

pub open spec fn form_items_upto(
    cs: Seq<DomView>,
    k: int,
    fields: Seq<FieldSpec>,
    buttons: Seq<ButtonSpec>,
) -> (Seq<FieldSpec>, Seq<ButtonSpec>)
    decreases cs, k,
{
    if k <= 0 || k > cs.len() {
        (fields, buttons)
    } else {
        let p = form_items_upto(cs, k - 1, fields, buttons);
        form_items(cs[k - 1], p.0, p.1)
    }
}

/// The forms of a tree in document order, each with what lies inside it.
pub open spec fn forms_spec(v: DomView, acc: Seq<FormSpec>) -> Seq<FormSpec>
    decreases v, 0int,
{
    let acc1 = if v.tag == "form"@ {
        let items = form_items(v, Seq::empty(), Seq::empty());
        acc.push(
            FormSpec {
                action: attr_of(v, "action"@),
                method: attr_of(v, "method"@),
                fields: items.0,
                buttons: items.1,
            },
        )
    } else {
        acc
    };
    forms_upto(v.children, v.children.len() as int, acc1)
}

pub open spec fn forms_upto(cs: Seq<DomView>, k: int, acc: Seq<FormSpec>) -> Seq<FormSpec>
    decreases cs, k,
{
    if k <= 0 || k > cs.len() {
        acc
    } else {
        forms_spec(cs[k - 1], forms_upto(cs, k - 1, acc))
    }
}

fn attr_owned(node: &DomNode, name: &str) -> (r: Option<String>)
    ensures
        sv(r) == attr_of(node.dv(), name@),
{
    match lookup_attr(&node.attributes, name) {
        Some(v) => Some(to_owned(v)),
        None => None,
    }
}

fn find_selected_option(node: &DomNode) -> (r: Option<String>)
    ensures
        sv(r) == selected_option_spec(node.dv()),
{
    let ghost v = node.dv();
    proof {
        lemma_dv_children(node);
    }
    let ghost cs = v.children;
    let mut i: usize = 0;
    while i < node.children.len()
        invariant
            i <= node.children@.len(),
            v == node.dv(),
            cs == v.children,
            cs == crate::dom::children_views(node.children@),
            option_from(cs, 0, true) == option_from(cs, i as int, true),
        decreases node.children.len() - i,
    {
        let child = &node.children[i];
        proof {
            assert(cs[i as int] == child.dv());
        }
        if str_eq(child.tag.as_str(), "option") && lookup_attr(&child.attributes, "selected").is_some() {
            return attr_owned(child, "value");
        }
        i = i + 1;
    }
    let mut j: usize = 0;
    while j < node.children.len()
        invariant
            j <= node.children@.len(),
            v == node.dv(),
            cs == v.children,
            cs == crate::dom::children_views(node.children@),
            option_from(cs, 0, true) is None,
            option_from(cs, 0, false) == option_from(cs, j as int, false),
        decreases node.children.len() - j,
    {
        let child = &node.children[j];
        proof {
            assert(cs[j as int] == child.dv());
        }
        if str_eq(child.tag.as_str(), "option") {
            return attr_owned(child, "value");
        }
        j = j + 1;
    }
    None
}

proof fn lemma_fields_push(s: Seq<FormField>, x: FormField)
    ensures
        fields_view(s.push(x)) == fields_view(s).push(x.fv()),
{
    assert(fields_view(s.push(x)) =~= fields_view(s).push(x.fv()));
}

proof fn lemma_buttons_push(s: Seq<FormButton>, x: FormButton)
    ensures
        buttons_view(s.push(x)) == buttons_view(s).push(x.bv()),
{
    assert(buttons_view(s.push(x)) =~= buttons_view(s).push(x.bv()));
}

fn collect_form_fields(node: &DomNode, fields: &mut Vec<FormField>, buttons: &mut Vec<FormButton>)
    ensures
        (fields_view(final(fields)@), buttons_view(final(buttons)@)) == form_items(
            node.dv(),
            fields_view(old(fields)@),
            buttons_view(old(buttons)@),
        ),
    decreases node,
{
    let ghost v = node.dv();
    proof {
        lemma_dv_children(node);
    }
    let tag = node.tag.as_str();
    if str_eq(tag, "input") {
        let ft = match lookup_attr(&node.attributes, "type") {
            Some(t) => to_owned(t),
            None => to_owned("text"),
        };
        if str_eq(ft.as_str(), "submit") || str_eq(ft.as_str(), "button") || str_eq(
            ft.as_str(),
            "image",
        ) {
            let b = FormButton {
                name: attr_owned(node, "name"),
                value: attr_owned(node, "value"),
                formaction: attr_owned(node, "formaction"),
                text: attr_owned(node, "value"),
            };
            proof {
                lemma_buttons_push(buttons@, b);
            }
            buttons.push(b);
        } else {
            let checked = (str_eq(ft.as_str(), "checkbox") || str_eq(ft.as_str(), "radio"))
                && lookup_attr(&node.attributes, "checked").is_some();
            let f = FormField {
                name: attr_owned(node, "name"),
                value: attr_owned(node, "value"),
                field_type: ft,
                checked,
            };
            proof {
                lemma_fields_push(fields@, f);
            }
            fields.push(f);
        }
    } else if str_eq(tag, "button") {
        let b = FormButton {
            name: attr_owned(node, "name"),
            value: attr_owned(node, "value"),
            formaction: attr_owned(node, "formaction"),
            text: Some(node.text_content()),
        };
        proof {
            lemma_buttons_push(buttons@, b);
        }
        buttons.push(b);
    } else if str_eq(tag, "textarea") {
        let f = FormField {
            name: attr_owned(node, "name"),
            value: Some(node.text_content()),
            field_type: to_owned("textarea"),
            checked: false,
        };
        proof {
            lemma_fields_push(fields@, f);
        }
        fields.push(f);
    } else if str_eq(tag, "select") {
        let f = FormField {
            name: attr_owned(node, "name"),
            value: find_selected_option(node),
            field_type: to_owned("select"),
            checked: false,
        };
        proof {
            lemma_fields_push(fields@, f);
        }
        fields.push(f);
    }
    let ghost f0 = fields_view(fields@);
    let ghost b0 = buttons_view(buttons@);
    proof {
        assert((f0, b0) == own_items(v, fields_view(old(fields)@), buttons_view(old(buttons)@)));
    }
    let ghost cs = v.children;
    let mut i: usize = 0;
    while i < node.children.len()
        invariant
            i <= node.children@.len(),
            v == node.dv(),
            cs == v.children,
            cs == crate::dom::children_views(node.children@),
            (f0, b0) == own_items(v, fields_view(old(fields)@), buttons_view(old(buttons)@)),
            (fields_view(fields@), buttons_view(buttons@)) == form_items_upto(cs, i as int, f0, b0),
        decreases node.children.len() - i,
    {
        collect_form_fields(&node.children[i], fields, buttons);
        proof {
            assert(cs[i as int] == node.children@[i as int].dv());
        }
        i = i + 1;
    }
}

fn collect_forms(node: &DomNode, forms: &mut Vec<FormInfo>)
    ensures
        forms_view(final(forms)@) == forms_spec(node.dv(), forms_view(old(forms)@)),
    decreases node,
{
    let ghost v = node.dv();
    proof {
        lemma_dv_children(node);
    }
    if str_eq(node.tag.as_str(), "form") {
        let mut fields: Vec<FormField> = Vec::new();
        let mut buttons: Vec<FormButton> = Vec::new();
        proof {
            assert(fields_view(fields@) =~= Seq::<FieldSpec>::empty());
            assert(buttons_view(buttons@) =~= Seq::<ButtonSpec>::empty());
        }
        collect_form_fields(node, &mut fields, &mut buttons);
        let f = FormInfo {
            action: attr_owned(node, "action"),
            method: attr_owned(node, "method"),
            fields,
            buttons,
        };
        let ghost prev = forms@;
        forms.push(f);
        proof {
            assert(forms_view(forms@) =~= forms_view(prev).push(f.formv()));
        }
    }
    let ghost f0 = forms_view(forms@);
    let ghost cs = v.children;
    let mut i: usize = 0;
    while i < node.children.len()
        invariant
            i <= node.children@.len(),
            v == node.dv(),
            cs == v.children,
            cs == crate::dom::children_views(node.children@),
            forms_spec(v, forms_view(old(forms)@)) == forms_upto(cs, cs.len() as int, f0),
            forms_view(forms@) == forms_upto(cs, i as int, f0),
        decreases node.children.len() - i,
    {
        collect_forms(&node.children[i], forms);
        proof {
            assert(cs[i as int] == node.children@[i as int].dv());
        }
        i = i + 1;
    }
}

/// The forms of a page, in document order: action, method, fields and
/// buttons (nested forms' controls count for the outer form too).
pub fn extract_forms(node: &DomNode) -> (r: Vec<FormInfo>)
    ensures
        forms_view(r@) == forms_spec(node.dv(), Seq::empty()),
{
    let mut forms: Vec<FormInfo> = Vec::new();
    proof {
        assert(forms_view(forms@) =~= Seq::<FormSpec>::empty());
    }
    collect_forms(node, &mut forms);
    forms
}

pub open spec fn ostr(o: Option<&str>) -> Option<Seq<char>> {
    match o {
        Some(s) => Some(s@),
        None => None,
    }
}

/// Whether a form button is the one a click aimed at, by name or by text.
pub open spec fn button_matches(b: ButtonSpec, name: Option<Seq<char>>, text: Option<Seq<char>>) -> bool {
    (name is Some && b.name == name) || (text is Some && (b.value == text || b.text == text))
}

pub open spec fn form_has_button(f: FormSpec, name: Option<Seq<char>>, text: Option<Seq<char>>) -> bool {
    exists|j: int| 0 <= j < f.buttons.len() && button_matches(#[trigger] f.buttons[j], name, text)
}

/// The first form, from `i` on, holding a matching button.
pub open spec fn form_index_from(
    forms: Seq<FormSpec>,
    i: int,
    name: Option<Seq<char>>,
    text: Option<Seq<char>>,
) -> Option<int>
    decreases forms.len() - i,
{
    if i < 0 || i >= forms.len() {
        None
    } else if form_has_button(forms[i], name, text) {
        Some(i)
    } else {
        form_index_from(forms, i + 1, name, text)
    }
}

/// The form that `form_index_from` finds lies at or after `i`, inside the list.
pub proof fn lemma_form_index_bounds(
    forms: Seq<FormSpec>,
    i: int,
    name: Option<Seq<char>>,
    text: Option<Seq<char>>,
)
    ensures
        form_index_from(forms, i, name, text) matches Some(j) ==> i <= j < forms.len(),
    decreases forms.len() - i,
{
    if 0 <= i < forms.len() && !form_has_button(forms[i], name, text) {
        lemma_form_index_bounds(forms, i + 1, name, text);
    }
}

fn opt_eq(a: &Option<String>, b: Option<&str>) -> (r: bool)
    ensures
        r == (sv(*a) == ostr(b)),
{
    match (a, b) {
        (Some(x), Some(y)) => str_eq(x.as_str(), y),
        (None, None) => true,
        _ => false,
    }
}

/// The form whose buttons include the clicked one (by name, value or
/// text); the first form when none does.
pub fn find_form_index_for_button(
    forms: &Vec<FormInfo>,
    button_name: Option<&str>,
    button_text: Option<&str>,
) -> (r: usize)
    ensures
        r as int == match form_index_from(forms_view(forms@), 0, ostr(button_name), ostr(button_text)) {
            Some(i) => i,
            None => 0,
        },
        forms@.len() > 0 ==> r < forms@.len(),
{
    proof {
        lemma_form_index_bounds(forms_view(forms@), 0, ostr(button_name), ostr(button_text));
    }
    let ghost fv = forms_view(forms@);
    let ghost nm = ostr(button_name);
    let ghost tx = ostr(button_text);
    let mut i: usize = 0;
    while i < forms.len()
        invariant
            i <= forms@.len(),
            fv == forms_view(forms@),
            nm == ostr(button_name),
            tx == ostr(button_text),
            form_index_from(fv, 0, nm, tx) == form_index_from(fv, i as int, nm, tx),
        decreases forms.len() - i,
    {
        let form = &forms[i];
        let ghost f = fv[i as int];
        proof {
            assert(f == form.formv());
        }
        let mut j: usize = 0;
        while j < form.buttons.len()
            invariant
                j <= form.buttons@.len(),
                f == form.formv(),
                i < forms@.len(),
                fv == forms_view(forms@),
                f == fv[i as int],
                form_index_from(fv, 0, nm, tx) == form_index_from(fv, i as int, nm, tx),
                nm == ostr(button_name),
                tx == ostr(button_text),
                forall|m: int| 0 <= m < j ==> !button_matches(#[trigger] f.buttons[m], nm, tx),
            decreases form.buttons.len() - j,
        {
            let btn = &form.buttons[j];
            proof {
                assert(f.buttons[j as int] == btn.bv());
            }
            let by_name = button_name.is_some() && opt_eq(&btn.name, button_name);
            let by_text = button_text.is_some() && (opt_eq(&btn.value, button_text) || opt_eq(
                &btn.text,
                button_text,
            ));
            if by_name || by_text {
                proof {
                    assert(button_matches(f.buttons[j as int], nm, tx));
                }
                return i;
            }
            j = j + 1;
        }
        i = i + 1;
    }
    0
}

/// The data a form submits before any typing: each named field with its
/// value (empty when absent); a checkbox or radio only when checked, with
/// value `on` when it has none.
pub open spec fn default_data_spec(fields: Seq<FieldSpec>) -> Seq<(Seq<char>, Seq<char>)>
    decreases fields.len(),
{
    if fields.len() == 0 {
        Seq::empty()
    } else {
        let prev = default_data_spec(fields.drop_last());
        let f = fields.last();
        match f.name {
            Some(n) => if f.field_type == "checkbox"@ || f.field_type == "radio"@ {
                if f.checked {
                    prev.push(
                        (
                            n,
                            match f.value {
                                Some(v) => v,
                                None => "on"@,
                            },
                        ),
                    )
                } else {
                    prev
                }
            } else {
                prev.push(
                    (
                        n,
                        match f.value {
                            Some(v) => v,
                            None => Seq::empty(),
                        },
                    ),
                )
            },
            None => prev,
        }
    }
}

pub fn default_form_data(form: &FormInfo) -> (r: Vec<(String, String)>)
    ensures
        view_attrs(r@) == default_data_spec(fields_view(form.fields@)),
{
    let ghost fv = fields_view(form.fields@);
    let mut out: Vec<(String, String)> = Vec::new();
    let mut i: usize = 0;
    proof {
        assert(fv.take(0) =~= Seq::<FieldSpec>::empty());
        assert(view_attrs(out@) =~= Seq::<(Seq<char>, Seq<char>)>::empty());
    }
    while i < form.fields.len()
        invariant
            i <= form.fields@.len(),
            fv == fields_view(form.fields@),
            view_attrs(out@) == default_data_spec(fv.take(i as int)),
        decreases form.fields.len() - i,
    {
        let field = &form.fields[i];
        proof {
            assert(fv.take(i + 1).drop_last() =~= fv.take(i as int));
            assert(fv.take(i + 1).last() == field.fv());
        }
        let ghost prev = out@;
        if let Some(name) = &field.name {
            if str_eq(field.field_type.as_str(), "checkbox") || str_eq(
                field.field_type.as_str(),
                "radio",
            ) {
                if field.checked {
                    let v = match &field.value {
                        Some(v) => copy_string(v),
                        None => to_owned("on"),
                    };
                    out.push((copy_string(name), v));
                    proof {
                        assert(view_attrs(out@) =~= view_attrs(prev).push((name@, v@)));
                    }
                }
            } else {
                let v = match &field.value {
                    Some(v) => copy_string(v),
                    None => String::new(),
                };
                out.push((copy_string(name), v));
                proof {
                    assert(view_attrs(out@) =~= view_attrs(prev).push((name@, v@)));
                }
            }
        }
        i = i + 1;
    }
    proof {
        assert(fv.take(i as int) =~= fv);
    }
    out
}

/// The `formaction` of the first button of the form that matches the
/// clicked one: same name (both absent counts as the same), or a value or
/// text equal to its text (both absent counting as equal too).
pub open spec fn formaction_from(
    bs: Seq<ButtonSpec>,
    k: int,
    name: Option<Seq<char>>,
    text: Option<Seq<char>>,
) -> Option<Seq<char>>
    decreases bs.len() - k,
{
    if k < 0 || k >= bs.len() {
        None
    } else if bs[k].name == name || bs[k].value == text || bs[k].text == text {
        bs[k].formaction
    } else {
        formaction_from(bs, k + 1, name, text)
    }
}

pub fn button_formaction(form: &FormInfo, button_name: Option<&str>, button_text: Option<&str>) -> (r:
    Option<String>)
    ensures
        sv(r) == formaction_from(
            buttons_view(form.buttons@),
            0,
            ostr(button_name),
            ostr(button_text),
        ),
{
    let ghost bv = buttons_view(form.buttons@);
    let mut j: usize = 0;
    while j < form.buttons.len()
        invariant
            j <= form.buttons@.len(),
            bv == buttons_view(form.buttons@),
            formaction_from(bv, 0, ostr(button_name), ostr(button_text)) == formaction_from(
                bv,
                j as int,
                ostr(button_name),
                ostr(button_text),
            ),
        decreases form.buttons.len() - j,
    {
        let b = &form.buttons[j];
        proof {
            assert(bv[j as int] == b.bv());
        }
        if opt_eq(&b.name, button_name) || opt_eq(&b.value, button_text) || opt_eq(
            &b.text,
            button_text,
        ) {
            return match &b.formaction {
                Some(f) => Some(copy_string(f)),
                None => None,
            };
        }
        j = j + 1;
    }
    None
}


// ---------------------------------------------------------------------------
// The value of a select
// ---------------------------------------------------------------------------

/// A `<select>` takes the value of its first `<option>` marked `selected`;
/// when none is, the value of its first `<option>`: the `value` attribute
/// of the option child at the smallest position among those that qualify.
pub proof fn law_select_value(v: DomView, k: int)
    requires
        0 <= k < v.children.len(),
        v.children[k].tag == "option"@,
    ensures
        (forall|j: int| 0 <= j < k ==> (#[trigger] v.children[j]).tag != "option"@)
            && (forall|j: int| 0 <= j < v.children.len() && (#[trigger] v.children[j]).tag == "option"@
            ==> attr_of(v.children[j], "selected"@) is None) ==> selected_option_spec(v) == attr_of(
            v.children[k],
            "value"@,
        ),
        (forall|j: int|
            0 <= j < k ==> !((#[trigger] v.children[j]).tag == "option"@ && attr_of(
                v.children[j],
                "selected"@,
            ) is Some)) && attr_of(v.children[k], "selected"@) is Some ==> selected_option_spec(v)
            == attr_of(v.children[k], "value"@),
{
    let cs = v.children;
    if (forall|j: int| 0 <= j < k ==> (#[trigger] cs[j]).tag != "option"@) && (forall|j: int|
        0 <= j < cs.len() && (#[trigger] cs[j]).tag == "option"@ ==> attr_of(cs[j], "selected"@) is None) {
        lemma_option_none(cs, 0, true);
        lemma_option_first(cs, 0, k, false);
    }
    if (forall|j: int|
        0 <= j < k ==> !((#[trigger] cs[j]).tag == "option"@ && attr_of(cs[j], "selected"@) is Some))
        && attr_of(cs[k], "selected"@) is Some {
        lemma_option_first(cs, 0, k, true);
    }
}

proof fn lemma_option_none(cs: Seq<DomView>, i: int, sel: bool)
    requires
        0 <= i,
        sel,
        forall|j: int| 0 <= j < cs.len() && (#[trigger] cs[j]).tag == "option"@ ==> attr_of(
            cs[j],
            "selected"@,
        ) is None,
    ensures
        option_from(cs, i, sel) is None,
    decreases cs.len() - i,
{
    if i < cs.len() {
        lemma_option_none(cs, i + 1, sel);
    }
}

proof fn lemma_option_first(cs: Seq<DomView>, i: int, k: int, sel: bool)
    requires
        0 <= i <= k < cs.len(),
        cs[k].tag == "option"@,
        sel ==> attr_of(cs[k], "selected"@) is Some,
        forall|j: int|
            i <= j < k ==> !((#[trigger] cs[j]).tag == "option"@ && (!sel || attr_of(
                cs[j],
                "selected"@,
            ) is Some)),
    ensures
        option_from(cs, i, sel) == Some(attr_of(cs[k], "value"@)),
    decreases k - i,
{
    if i < k {
        lemma_option_first(cs, i + 1, k, sel);
    }
}


// ---------------------------------------------------------------------------
// Default form data
// ---------------------------------------------------------------------------

/// Adding a field to a form adds to its default data: for a named text-like
/// field the pair (name, value), its value empty when it has none; for a
/// named checkbox or radio that is checked the pair (name, value), `on`
/// when it has none; nothing for one that is not checked, or for a field
/// without a name. The pairs already there stay as they were, in order.
pub proof fn law_default_form_data(fields: Seq<FieldSpec>, f: FieldSpec)
    ensures
        f.name is None ==> default_data_spec(fields.push(f)) == default_data_spec(fields),
        f.name is Some && f.field_type != "checkbox"@ && f.field_type != "radio"@
            ==> default_data_spec(fields.push(f)) == default_data_spec(fields).push(
            (
                f.name->0,
                match f.value {
                    Some(v) => v,
                    None => Seq::empty(),
                },
            ),
        ),
        f.name is Some && (f.field_type == "checkbox"@ || f.field_type == "radio"@)
            && f.checked ==> default_data_spec(fields.push(f)) == default_data_spec(fields).push(
            (
                f.name->0,
                match f.value {
                    Some(v) => v,
                    None => seq!['o', 'n'],
                },
            ),
        ),
        (f.field_type == "checkbox"@ || f.field_type == "radio"@) && !f.checked ==> default_data_spec(
            fields.push(f),
        ) == default_data_spec(fields),
{
    assert(fields.push(f).drop_last() =~= fields);
    reveal_strlit("on");
    assert("on"@ =~= seq!['o', 'n']);
    reveal_strlit("");
}

} // verus!
