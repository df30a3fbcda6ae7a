//! Reading search results out of result pages: DuckDuckGo's HTML endpoint
//! (marked up with `result`, `result__a`, `result__snippet` and
//! `result__url` classes) and Google (an `<a>` holding an `<h3>`, with
//! snippets found in nearby text blocks). Redirect links are decoded to
//! their target.
use vstd::prelude::*;

use crate::dom::{attr_lookup, attr_of, lemma_dv_children, lookup_attr, view_attrs, DomNode, DomView, text_content_spec};
use crate::text::{
    contains, contains_str, contains_word, copy_string, push_str, starts_with, starts_with_str,
    str_eq, to_owned, trim, trim_str, words,
};

verus! {

broadcast use vstd::string::group_string_axioms;

/// Search engine to use.
#[derive(Debug, Clone, Copy, PartialEq, Eq, Structural)]
pub enum SearchEngine {
    /// DuckDuckGo's HTML-only endpoint.
    DuckDuckGo,
    /// Google (may answer automated requests with a CAPTCHA).
    Google,
}

/// Semantic purpose of an input field.
#[derive(Debug, Clone, Copy, PartialEq, Eq, Structural)]
pub enum InputPurpose {
    Password,
    Email,
    Username,
    VerificationCode,
    Search,
    Phone,
}

/// A single search result.
#[derive(Debug)]
pub struct SearchResult {
    pub title: String,
    pub url: String,
    pub snippet: String,
}

pub struct ResultSpec {
    pub title: Seq<char>,
    pub url: Seq<char>,
    pub snippet: Seq<char>,
}

impl SearchResult {
    pub open spec fn res_view(&self) -> ResultSpec {
        ResultSpec { title: self.title@, url: self.url@, snippet: self.snippet@ }
    }
}

pub open spec fn results_view(s: Seq<SearchResult>) -> Seq<ResultSpec> {
    s.map_values(|r: SearchResult| r.res_view())
}

proof fn lemma_results_push(s: Seq<SearchResult>, x: SearchResult)
    ensures
        results_view(s.push(x)) == results_view(s).push(x.res_view()),
{
    assert(results_view(s.push(x)) =~= results_view(s).push(x.res_view()));
}

pub open spec fn opt_string_view(o: Option<String>) -> Option<Seq<char>> {
    match o {
        Some(s) => Some(s@),
        None => None,
    }
}

// ---------------------------------------------------------------------------
// Redirect links
// ---------------------------------------------------------------------------

/// The decoded key / value pairs of the query of the URL that `url::Url::parse`
/// reads from a text, or `None` when the text is no absolute URL.
pub uninterp spec fn query_pairs_of(s: Seq<char>) -> Option<Seq<(Seq<char>, Seq<char>)>>;

/// Calls `url::Url::parse` and collects `query_pairs` of the result into
/// owned pairs. The contract only names the result: `None` exactly when the
/// parse fails, else the pairs in query order.
#[verifier::external_body]
fn url_query_pairs(s: &str) -> (r: Option<Vec<(String, String)>>)
    ensures
        match r {
            Some(v) => query_pairs_of(s@) == Some(view_attrs(v@)),
            None => query_pairs_of(s@) is None,
        },
{
    match url::Url::parse(s) {
        Ok(u) => Some(u.query_pairs().map(|(k, v)| (k.into_owned(), v.into_owned())).collect()),
        Err(_) => None,
    }
}

/// A redirect link made absolute for parsing: `//host...` gets `https:`,
/// `/path...` gets a placeholder origin.
pub open spec fn absolute_redirect(u: Seq<char>) -> Seq<char> {
    if starts_with(u, "//"@) {
        "https:"@ + u
    } else if starts_with(u, "/"@) {
        "https://dummy.local"@ + u
    } else {
        u
    }
}

/// The target of a redirect link given the query pairs of its absolute
/// form: the first value of `param`; failing that the link itself if it
/// starts with `http`; else nothing.
pub open spec fn pick_target(
    u: Seq<char>,
    param: Seq<char>,
    pairs: Option<Seq<(Seq<char>, Seq<char>)>>,
) -> Option<Seq<char>> {
    let fallback = if starts_with(u, "http"@) {
        Some(u)
    } else {
        None
    };
    match pairs {
        Some(ps) => match attr_lookup(ps, param) {
            Some(v) => Some(v),
            None => fallback,
        },
        None => fallback,
    }
}

pub open spec fn redirect_target(u: Seq<char>, param: Seq<char>) -> Option<Seq<char>> {
    pick_target(u, param, query_pairs_of(absolute_redirect(u)))
}

pub open spec fn opt_pairs_view(p: Option<Vec<(String, String)>>) -> Option<
    Seq<(Seq<char>, Seq<char>)>,
> {
    match p {
        Some(v) => Some(view_attrs(v@)),
        None => None,
    }
}

/// The target of a redirect link, given the query pairs of its absolute
/// form (`None` when that form does not parse as a URL).
pub fn pick_redirect_target(
    redirect_url: &str,
    param: &str,
    pairs: &Option<Vec<(String, String)>>,
) -> (r: Option<String>)
    ensures
        opt_string_view(r) == pick_target(redirect_url@, param@, opt_pairs_view(*pairs)),
{
    if let Some(ps) = pairs {
        if let Some(v) = lookup_attr(ps, param) {
            return Some(to_owned(v));
        }
    }
    if starts_with_str(redirect_url, "http") {
        Some(to_owned(redirect_url))
    } else {
        None
    }
}

/// Decodes a redirect link (DuckDuckGo's `?uddg=`, Google's `?q=`) to the
/// value of the query parameter `param`.
pub fn decode_redirect_url(redirect_url: &str, param: &str) -> (r: Option<String>)
    ensures
        opt_string_view(r) == redirect_target(redirect_url@, param@),
{
    let full = if starts_with_str(redirect_url, "//") {
        let mut f = to_owned("https:");
        push_str(&mut f, redirect_url);
        f
    } else if starts_with_str(redirect_url, "/") {
        let mut f = to_owned("https://dummy.local");
        push_str(&mut f, redirect_url);
        f
    } else {
        to_owned(redirect_url)
    };
    let pairs = url_query_pairs(full.as_str());
    pick_redirect_target(redirect_url, param, &pairs)
}

// ---------------------------------------------------------------------------
// DuckDuckGo
// ---------------------------------------------------------------------------

/// The `class` attribute of a node, or nothing.
pub open spec fn class_of(v: DomView) -> Seq<char> {
    match attr_of(v, "class"@) {
        Some(c) => c,
        None => Seq::empty(),
    }
}

pub open spec fn has_class(v: DomView, w: Seq<char>) -> bool {
    words(class_of(v)).contains(w)
}

fn class_str(node: &DomNode) -> (r: &str)
    ensures
        r@ == class_of(node.dv()),
{
    match lookup_attr(&node.attributes, "class") {
        Some(c) => c,
        None => {
            proof {
                reveal_strlit("");
                assert(""@ =~= Seq::<char>::empty());
            }
            ""
        },
    }
}

/// Title, URL and snippet read so far inside one DuckDuckGo result.
pub open spec fn ddg_own(v: DomView, st: (Seq<char>, Seq<char>, Seq<char>)) -> (
    Seq<char>,
    Seq<char>,
    Seq<char>,
) {
    let href = attr_of(v, "href"@);
    let (t1, u1) = if has_class(v, "result__a"@) && v.tag == "a"@ {
        (
            text_content_spec(v),
            match href {
                Some(h) => h,
                None => st.1,
            },
        )
    } else {
        (st.0, st.1)
    };
    let s1 = if has_class(v, "result__snippet"@) {
        text_content_spec(v)
    } else {
        st.2
    };
    let u2 = if has_class(v, "result__url"@) && u1.len() == 0 {
        match href {
            Some(h) => h,
            None => u1,
        }
    } else {
        u1
    };
    (t1, u2, s1)
}

pub open spec fn ddg_fields(v: DomView, st: (Seq<char>, Seq<char>, Seq<char>)) -> (
    Seq<char>,
    Seq<char>,
    Seq<char>,
)
    decreases v, 0int,
{
    ddg_fields_upto(v.children, v.children.len() as int, ddg_own(v, st))
}

pub open spec fn ddg_fields_upto(
    cs: Seq<DomView>,
    k: int,
    st: (Seq<char>, Seq<char>, Seq<char>),
) -> (Seq<char>, Seq<char>, Seq<char>)
    decreases cs, k,
{
    if k <= 0 || k > cs.len() {
        st
    } else {
        ddg_fields(cs[k - 1], ddg_fields_upto(cs, k - 1, st))
    }
}

/// Whether a node is a DuckDuckGo result block (not an ad).
pub open spec fn is_ddg_result(v: DomView) -> bool {
    has_class(v, "result"@) && !contains(class_of(v), "result--ad"@) && v.tag == "div"@
}

/// The result a result block gives, if it has a title or a URL.
pub open spec fn ddg_result(v: DomView) -> Option<ResultSpec> {
    let (t, u, s) = ddg_fields(v, (Seq::empty(), Seq::empty(), Seq::empty()));
    if t.len() > 0 || u.len() > 0 {
        Some(
            ResultSpec {
                title: trim(t),
                url: match redirect_target(u, "uddg"@) {
                    Some(x) => x,
                    None => u,
                },
                snippet: trim(s),
            },
        )
    } else {
        None
    }
}

pub open spec fn ddg_results(v: DomView, rs: Seq<ResultSpec>) -> Seq<ResultSpec>
    decreases v, 0int,
{
    let rs1 = if is_ddg_result(v) {
        match ddg_result(v) {
            Some(r) => rs.push(r),
            None => rs,
        }
    } else {
        rs
    };
    ddg_results_upto(v.children, v.children.len() as int, rs1)
}

pub open spec fn ddg_results_upto(cs: Seq<DomView>, k: int, rs: Seq<ResultSpec>) -> Seq<ResultSpec>
    decreases cs, k,
{
    if k <= 0 || k > cs.len() {
        rs
    } else {
        ddg_results(cs[k - 1], ddg_results_upto(cs, k - 1, rs))
    }
}

fn extract_ddg_fields(node: &DomNode, title: &mut String, url: &mut String, snippet: &mut String)
    ensures
        (final(title)@, final(url)@, final(snippet)@) == ddg_fields(
            node.dv(),
            (old(title)@, old(url)@, old(snippet)@),
        ),
    decreases node,
{
    let ghost v = node.dv();
    proof {
        lemma_dv_children(node);
    }
    let classes = class_str(node);
    let href = lookup_attr(&node.attributes, "href");
    if contains_word(classes, "result__a") && str_eq(node.tag.as_str(), "a") {
        *title = node.text_content();
        if let Some(h) = href {
            *url = to_owned(h);
        }
    }
    if contains_word(classes, "result__snippet") {
        *snippet = node.text_content();
    }
    if contains_word(classes, "result__url") && url.as_str().is_empty() {
        if let Some(h) = href {
            *url = to_owned(h);
        }
    }
    let ghost cs = v.children;
    let mut i: usize = 0;
    while i < node.children.len()
        invariant
            i <= node.children@.len(),
            v == node.dv(),
            cs == v.children,
            cs == crate::dom::children_views(node.children@),
            ddg_fields(v, (old(title)@, old(url)@, old(snippet)@)) == ddg_fields_upto(
                cs,
                cs.len() as int,
                ddg_own(v, (old(title)@, old(url)@, old(snippet)@)),
            ),
            (title@, url@, snippet@) == ddg_fields_upto(
                cs,
                i as int,
                ddg_own(v, (old(title)@, old(url)@, old(snippet)@)),
            ),
        decreases node.children.len() - i,
    {
        extract_ddg_fields(&node.children[i], title, url, snippet);
        proof {
            assert(cs[i as int] == node.children@[i as int].dv());
        }
        i = i + 1;
    }
}

fn find_ddg_result_nodes(node: &DomNode, results: &mut Vec<SearchResult>)
    ensures
        results_view(final(results)@) == ddg_results(node.dv(), results_view(old(results)@)),
    decreases node,
{
    let ghost v = node.dv();
    proof {
        lemma_dv_children(node);
    }
    let classes = class_str(node);
    let is_result = contains_word(classes, "result") && !contains_str(classes, "result--ad");
    if is_result && str_eq(node.tag.as_str(), "div") {
        let mut title = String::new();
        let mut url = String::new();
        let mut snippet = String::new();
        extract_ddg_fields(node, &mut title, &mut url, &mut snippet);
        if !title.as_str().is_empty() || !url.as_str().is_empty() {
            let resolved = match decode_redirect_url(url.as_str(), "uddg") {
                Some(x) => x,
                None => url,
            };
            let r = SearchResult {
                title: trim_str(title.as_str()),
                url: resolved,
                snippet: trim_str(snippet.as_str()),
            };
            proof {
                lemma_results_push(results@, r);
            }
            results.push(r);
        }
    }
    let ghost cs = v.children;
    let ghost base = results_view(results@);
    let mut i: usize = 0;
    while i < node.children.len()
        invariant
            i <= node.children@.len(),
            v == node.dv(),
            cs == v.children,
            cs == crate::dom::children_views(node.children@),
            ddg_results(v, results_view(old(results)@)) == ddg_results_upto(
                cs,
                cs.len() as int,
                base,
            ),
            results_view(results@) == ddg_results_upto(cs, i as int, base),
        decreases node.children.len() - i,
    {
        find_ddg_result_nodes(&node.children[i], results);
        proof {
            assert(cs[i as int] == node.children@[i as int].dv());
        }
        i = i + 1;
    }
}

/// Reads the results of a DuckDuckGo HTML result page: each `div` with
/// class `result` (and not `result--ad`) that has a title or URL, its link
/// decoded from DuckDuckGo's redirect, in document order.
pub fn extract_search_results_from(dom: &DomNode) -> (r: Vec<SearchResult>)
    ensures
        results_view(r@) == ddg_results(dom.dv(), Seq::empty()),
{
    let mut results: Vec<SearchResult> = Vec::new();
    proof {
        assert(results_view(results@) =~= Seq::<ResultSpec>::empty());
    }
    find_ddg_result_nodes(dom, &mut results);
    results
}


// ---------------------------------------------------------------------------
// Google
// ---------------------------------------------------------------------------

pub open spec fn has_h3(v: DomView) -> bool
    decreases v, 0int,
{
    v.tag == "h3"@ || has_h3_upto(v.children, v.children.len() as int)
}

pub open spec fn has_h3_upto(cs: Seq<DomView>, k: int) -> bool
    decreases cs, k,
{
    if k <= 0 || k > cs.len() {
        false
    } else {
        has_h3_upto(cs, k - 1) || has_h3(cs[k - 1])
    }
}

/// The text of the first `<h3>` in a subtree (in document order, the first
/// whose text is not empty), or nothing.
pub open spec fn h3_text(v: DomView) -> Seq<char>
    decreases v, 0int,
{
    if v.tag == "h3"@ {
        text_content_spec(v)
    } else {
        h3_text_from(v.children, 0)
    }
}

pub open spec fn h3_text_from(cs: Seq<DomView>, k: int) -> Seq<char>
    decreases cs, cs.len() - k,
{
    if k < 0 || k >= cs.len() {
        Seq::empty()
    } else {
        let t = h3_text(cs[k]);
        if t.len() > 0 {
            t
        } else {
            h3_text_from(cs, k + 1)
        }
    }
}

/// The first node of a subtree, in document order, whose `id` is `id`.
pub open spec fn find_id(v: DomView, id: Seq<char>) -> Option<DomView>
    decreases v, 0int,
{
    if attr_of(v, "id"@) == Some(id) {
        Some(v)
    } else {
        find_id_from(v.children, 0, id)
    }
}

pub open spec fn find_id_from(cs: Seq<DomView>, k: int, id: Seq<char>) -> Option<DomView>
    decreases cs, cs.len() - k,
{
    if k < 0 || k >= cs.len() {
        None
    } else {
        match find_id(cs[k], id) {
            Some(x) => Some(x),
            None => find_id_from(cs, k + 1, id),
        }
    }
}

/// A node that carries one of Google's snippet classes.
pub open spec fn is_snippet_block(v: DomView) -> bool {
    (contains(class_of(v), "VwiC3b"@) || contains(class_of(v), "yDYNvb"@) || contains(
        class_of(v),
        "lEBKkf"@,
    ) || contains(class_of(v), "st"@)) && (v.tag == "div"@ || v.tag == "span"@)
}

/// The first snippet text in a subtree for a result titled `title`: the text
/// of a snippet block that is not empty, differs from the title and is
/// longer than 20 bytes. `snip` is what was found before; once found, the
/// search stops.
pub open spec fn snip_near(v: DomView, title: Seq<char>, snip: Seq<char>) -> Seq<char>
    decreases v, 0int,
{
    let text = text_content_spec(v);
    if snip.len() > 0 {
        snip
    } else if is_snippet_block(v) && text.len() > 0 && text != title
        && (vstd::utf8::encode_utf8(text).len() as usize) > 20 {
        text
    } else {
        snip_upto(v.children, v.children.len() as int, title, snip)
    }
}

pub open spec fn snip_upto(cs: Seq<DomView>, k: int, title: Seq<char>, snip: Seq<char>) -> Seq<
    char,
>
    decreases cs, k,
{
    if k <= 0 || k > cs.len() {
        snip
    } else {
        snip_near(cs[k - 1], title, snip_upto(cs, k - 1, title, snip))
    }
}

/// A result without a snippet gets the one found in `v`, the block that
/// holds its link, for its title.
pub open spec fn fill_last(v: DomView, rs: Seq<ResultSpec>) -> Seq<ResultSpec> {
    let r = rs.last();
    if r.snippet.len() > 0 {
        rs
    } else {
        rs.update(
            rs.len() - 1,
            ResultSpec { title: r.title, url: r.url, snippet: trim(snip_near(v, r.title, Seq::empty())) },
        )
    }
}

/// The result links of a Google page: an `<a>` holding an `<h3>`, whose
/// `href` starts with `http` or `/url?`, is no ad and does not lead back to
/// Google's search, gives one result and is not searched further. A `div`
/// that holds exactly one result is that result's block: the result, when
/// it has no snippet yet, looks for one there (the innermost such `div`
/// first). A `div` that holds several results, such as the results
/// container, lends none, so a result never takes another one's snippet.
pub open spec fn glinks(v: DomView, rs: Seq<ResultSpec>) -> Seq<ResultSpec>
    decreases v, 1int,
{
    let href = attr_of(v, "href"@);
    if v.tag == "a"@ && has_h3(v) && href is Some && (starts_with(href->0, "http"@) || starts_with(
        href->0,
        "/url?"@,
    )) {
        let h = href->0;
        if contains(h, "google.com/aclk"@) || contains(h, "googleadservices"@) {
            rs
        } else if h3_text(v).len() > 0 {
            let resolved = match redirect_target(h, "q"@) {
                Some(x) => x,
                None => h,
            };
            if contains(resolved, "google.com/search"@) || starts_with(resolved, "/search"@) {
                rs
            } else {
                rs.push(ResultSpec { title: trim(h3_text(v)), url: resolved, snippet: Seq::empty() })
            }
        } else {
            glinks_descend(v, rs)
        }
    } else {
        glinks_descend(v, rs)
    }
}

pub open spec fn glinks_descend(v: DomView, rs: Seq<ResultSpec>) -> Seq<ResultSpec>
    decreases v, 0int,
{
    let rs1 = glinks_upto(v.children, v.children.len() as int, rs);
    if v.tag == "div"@ && rs1.len() == rs.len() + 1 {
        fill_last(v, rs1)
    } else {
        rs1
    }
}

pub open spec fn glinks_upto(cs: Seq<DomView>, k: int, rs: Seq<ResultSpec>) -> Seq<ResultSpec>
    decreases cs, k,
{
    if k <= 0 || k > cs.len() {
        rs
    } else {
        glinks(cs[k - 1], glinks_upto(cs, k - 1, rs))
    }
}

/// The results of a Google page: the links under the node with id `rso`
/// if there is one, else under the whole page.
pub open spec fn google_results(dom: DomView) -> Seq<ResultSpec> {
    let root = match find_id(dom, "rso"@) {
        Some(r) => r,
        None => dom,
    };
    glinks(root, Seq::empty())
}

proof fn lemma_h3_upto_mono(cs: Seq<DomView>, j: int, k: int)
    requires
        0 <= j <= k <= cs.len(),
        has_h3_upto(cs, j),
    ensures
        has_h3_upto(cs, k),
    decreases k - j,
{
    if j < k {
        lemma_h3_upto_mono(cs, j, k - 1);
    }
}

fn has_h3_descendant(node: &DomNode) -> (b: bool)
    ensures
        b == has_h3(node.dv()),
    decreases node,
{
    let ghost v = node.dv();
    proof {
        lemma_dv_children(node);
    }
    if str_eq(node.tag.as_str(), "h3") {
        return true;
    }
    let ghost cs = v.children;
    let mut i: usize = 0;
    while i < node.children.len()
        invariant
            i <= node.children@.len(),
            v == node.dv(),
            cs == v.children,
            cs == crate::dom::children_views(node.children@),
            v.tag != "h3"@,
            !has_h3_upto(cs, i as int),
        decreases node.children.len() - i,
    {
        proof {
            assert(cs[i as int] == node.children@[i as int].dv());
        }
        if has_h3_descendant(&node.children[i]) {
            proof {
                lemma_h3_upto_mono(cs, i + 1, cs.len() as int);
            }
            return true;
        }
        i = i + 1;
    }
    false
}

fn find_h3_text(node: &DomNode) -> (r: String)
    ensures
        r@ == h3_text(node.dv()),
    decreases node,
{
    let ghost v = node.dv();
    proof {
        lemma_dv_children(node);
    }
    if str_eq(node.tag.as_str(), "h3") {
        return node.text_content();
    }
    let ghost cs = v.children;
    let mut i: usize = 0;
    while i < node.children.len()
        invariant
            i <= node.children@.len(),
            v == node.dv(),
            cs == v.children,
            cs == crate::dom::children_views(node.children@),
            h3_text(v) == h3_text_from(cs, i as int),
        decreases node.children.len() - i,
    {
        proof {
            assert(cs[i as int] == node.children@[i as int].dv());
        }
        let text = find_h3_text(&node.children[i]);
        if !text.as_str().is_empty() {
            return text;
        }
        i = i + 1;
    }
    String::new()
}

fn find_node_by_id<'a>(node: &'a DomNode, id: &str) -> (r: Option<&'a DomNode>)
    ensures
        match r {
            Some(n) => find_id(node.dv(), id@) == Some(n.dv()),
            None => find_id(node.dv(), id@) is None,
        },
    decreases node,
{
    let ghost v = node.dv();
    proof {
        lemma_dv_children(node);
    }
    match lookup_attr(&node.attributes, "id") {
        Some(x) => {
            if str_eq(x, id) {
                return Some(node);
            }
        },
        None => {},
    }
    let ghost cs = v.children;
    let mut i: usize = 0;
    while i < node.children.len()
        invariant
            i <= node.children@.len(),
            v == node.dv(),
            cs == v.children,
            cs == crate::dom::children_views(node.children@),
            find_id(v, id@) == find_id_from(cs, i as int, id@),
        decreases node.children.len() - i,
    {
        proof {
            assert(cs[i as int] == node.children@[i as int].dv());
        }
        match find_node_by_id(&node.children[i], id) {
            Some(found) => {
                return Some(found);
            },
            None => {},
        }
        i = i + 1;
    }
    None
}

fn find_snippet_near_title(node: &DomNode, title: &str, snippet: &mut String)
    ensures
        final(snippet)@ == snip_near(node.dv(), title@, old(snippet)@),
    decreases node,
{
    let ghost v = node.dv();
    proof {
        lemma_dv_children(node);
    }
    if !snippet.as_str().is_empty() {
        return;
    }
    let classes = class_str(node);
    let is_snippet = contains_str(classes, "VwiC3b") || contains_str(classes, "yDYNvb")
        || contains_str(classes, "lEBKkf") || contains_str(classes, "st");
    if is_snippet && (str_eq(node.tag.as_str(), "div") || str_eq(node.tag.as_str(), "span")) {
        let text = node.text_content();
        let ts = text.as_str();
        if !ts.is_empty() && !str_eq(ts, title) && ts.len() > 20 {
            *snippet = text;
            return;
        }
    }
    let ghost cs = v.children;
    let mut i: usize = 0;
    while i < node.children.len()
        invariant
            i <= node.children@.len(),
            v == node.dv(),
            cs == v.children,
            cs == crate::dom::children_views(node.children@),
            snip_near(v, title@, old(snippet)@) == snip_upto(
                cs,
                cs.len() as int,
                title@,
                old(snippet)@,
            ),
            snippet@ == snip_upto(cs, i as int, title@, old(snippet)@),
        decreases node.children.len() - i,
    {
        find_snippet_near_title(&node.children[i], title, snippet);
        proof {
            assert(cs[i as int] == node.children@[i as int].dv());
        }
        i = i + 1;
    }
}

fn fill_google_snippet(node: &DomNode, results: &mut Vec<SearchResult>)
    requires
        old(results)@.len() > 0,
    ensures
        results_view(final(results)@) == fill_last(node.dv(), results_view(old(results)@)),
{
    let ghost r0 = results_view(results@);
    let i = results.len() - 1;
    proof {
        assert(r0.last() == results@[i as int].res_view());
    }
    if results[i].snippet.as_str().is_empty() {
        let mut snippet = String::new();
        find_snippet_near_title(node, results[i].title.as_str(), &mut snippet);
        let r = SearchResult {
            title: copy_string(&results[i].title),
            url: copy_string(&results[i].url),
            snippet: trim_str(snippet.as_str()),
        };
        let ghost prev = results@;
        results.set(i, r);
        proof {
            assert(results_view(results@) =~= results_view(prev).update(i as int, r.res_view()));
        }
    }
}

fn find_google_links(node: &DomNode, results: &mut Vec<SearchResult>)
    ensures
        results_view(final(results)@) == glinks(node.dv(), results_view(old(results)@)),
    decreases node,
{
    let ghost v = node.dv();
    let ghost r0 = results_view(results@);
    proof {
        lemma_dv_children(node);
    }
    let href = lookup_attr(&node.attributes, "href");
    if str_eq(node.tag.as_str(), "a") && has_h3_descendant(node) {
        if let Some(h) = href {
            if starts_with_str(h, "http") || starts_with_str(h, "/url?") {
                if contains_str(h, "google.com/aclk") || contains_str(h, "googleadservices") {
                    return;
                }
                let title = find_h3_text(node);
                if !title.as_str().is_empty() {
                    let resolved = match decode_redirect_url(h, "q") {
                        Some(x) => x,
                        None => to_owned(h),
                    };
                    if contains_str(resolved.as_str(), "google.com/search") || starts_with_str(
                        resolved.as_str(),
                        "/search",
                    ) {
                        return;
                    }
                    let r = SearchResult {
                        title: trim_str(title.as_str()),
                        url: resolved,
                        snippet: String::new(),
                    };
                    proof {
                        lemma_results_push(results@, r);
                    }
                    results.push(r);
                    return;
                }
            }
        }
    }
    let n0 = results.len();
    let ghost cs = v.children;
    let mut i: usize = 0;
    while i < node.children.len()
        invariant
            i <= node.children@.len(),
            v == node.dv(),
            n0 == r0.len(),
            cs == v.children,
            cs == crate::dom::children_views(node.children@),
            glinks(v, r0) == glinks_descend(v, r0),
            results_view(results@) == glinks_upto(cs, i as int, r0),
        decreases node.children.len() - i,
    {
        find_google_links(&node.children[i], results);
        proof {
            assert(cs[i as int] == node.children@[i as int].dv());
        }
        i = i + 1;
    }
    if str_eq(node.tag.as_str(), "div") && n0 < results.len() && results.len() - n0 == 1 {
        fill_google_snippet(node, results);
    }
}

/// Reads the results of a Google result page (see `google_results`).
pub fn extract_google_results_from(dom: &DomNode) -> (r: Vec<SearchResult>)
    ensures
        results_view(r@) == google_results(dom.dv()),
{
    let mut results: Vec<SearchResult> = Vec::new();
    proof {
        assert(results_view(results@) =~= Seq::<ResultSpec>::empty());
    }
    let root = match find_node_by_id(dom, "rso") {
        Some(n) => n,
        None => dom,
    };
    find_google_links(root, &mut results);
    results
}

} // verus!
