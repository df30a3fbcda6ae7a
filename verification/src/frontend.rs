//! What the tool and HTTP front ends take as parameters, and the parts of
//! their answers that do not depend on a transport: the text form of a
//! page, the search engine a parameter names, the elements a `find`
//! returns, and the status an error maps to.
use vstd::prelude::*;

use std::collections::HashSet;

use crate::fetch::FetchError;
use crate::output::{compact_spec, elems_view, to_compact_string, ElemSpec, SpatialElement};
use crate::search::SearchEngine;
use crate::session::{
    above, find_by_role, find_by_text, idx_view, lemma_positions_bound, positions_where, role_is,
    shown, text_has,
};
use crate::text::{decimal, push_decimal, push_str, str_eq, to_owned};

verus! {

broadcast use {vstd::string::group_string_axioms, vstd::std_specs::hash::group_hash_axioms};

/// Open a page.
#[derive(Debug)]
pub struct BrowseParams {
    pub url: String,
    /// `json` or the compact text form (the default).
    pub format: Option<String>,
    /// `all`, `visible`, `above_fold` or `visible_above_fold`.
    pub scope: Option<String>,
}

#[derive(Debug)]
pub struct ClickParams {
    pub id: u32,
}

#[derive(Debug)]
pub struct TypeTextParams {
    pub id: u32,
    pub text: String,
}

#[derive(Debug)]
pub struct CheckParams {
    pub id: u32,
}

#[derive(Debug)]
pub struct SelectParams {
    pub id: u32,
    pub value: String,
}

#[derive(Debug)]
pub struct GetPageParams {
    pub format: Option<String>,
    pub scope: Option<String>,
}

/// The query string of `GET /api/page`.
#[derive(Debug)]
pub struct GetPageQuery {
    pub format: Option<String>,
    pub scope: Option<String>,
}

#[derive(Debug)]
pub struct SearchParams {
    pub query: String,
    /// `google`, or DuckDuckGo (the default).
    pub engine: Option<String>,
}

#[derive(Debug)]
pub struct FindParams {
    pub text: Option<String>,
    pub role: Option<String>,
}

#[derive(Debug)]
pub struct LoginParams {
    pub username: String,
    pub password: String,
}

#[derive(Debug)]
pub struct EnterCodeParams {
    pub code: String,
}

/// Settings of the HTTP server.
#[derive(Debug)]
pub struct ServerConfig {
    pub port: u16,
    /// Idle time after which a session is dropped, in seconds.
    pub session_timeout_secs: u64,
    pub allow_private_network: bool,
}

impl Default for ServerConfig {
    /// Port 3847, sessions dropped after 30 idle minutes, no private network.
    fn default() -> (r: Self)
        ensures
            r.port == 3847,
            r.session_timeout_secs == 1800,
            !r.allow_private_network,
    {
        ServerConfig { port: 3847, session_timeout_secs: 1800, allow_private_network: false }
    }
}

/// `google` names Google; anything else, or nothing, DuckDuckGo.
pub fn engine_from_param(engine: Option<&str>) -> (r: SearchEngine)
    ensures
        r == (if engine matches Some(e) && e@ == "google"@ {
            SearchEngine::Google
        } else {
            SearchEngine::DuckDuckGo
        }),
{
    match engine {
        Some(e) => if str_eq(e, "google") {
            SearchEngine::Google
        } else {
            SearchEngine::DuckDuckGo
        },
        None => SearchEngine::DuckDuckGo,
    }
}

/// The text form of a page: a header with title, URL and element count,
/// then the compact element lines.
pub open spec fn page_text_spec(title: Seq<char>, url: Seq<char>, es: Seq<ElemSpec>) -> Seq<char> {
    "title: "@ + title + "\nurl: "@ + url + "\nels: "@ + decimal(es.len()) + "\n---\n"@
        + compact_spec(es)
}

pub fn format_page_text(title: &str, url: &str, els: &Vec<SpatialElement>) -> (r: String)
    ensures
        r@ == page_text_spec(title@, url@, elems_view(els@)),
{
    let mut s = to_owned("title: ");
    push_str(&mut s, title);
    push_str(&mut s, "\nurl: ");
    push_str(&mut s, url);
    push_str(&mut s, "\nels: ");
    push_decimal(&mut s, els.len() as u64);
    push_str(&mut s, "\n---\n");
    let compact = to_compact_string(els);
    push_str(&mut s, compact.as_str());
    proof {
        assert(elems_view(els@).len() == els@.len());
    }
    s
}

/// Adds the role matches `rp` to `acc`, skipping elements whose id is
/// already listed.
pub open spec fn merge_by_id(es: Seq<ElemSpec>, acc: Seq<int>, rp: Seq<int>) -> Seq<int>
    decreases rp.len(),
{
    if rp.len() == 0 {
        acc
    } else {
        let a = merge_by_id(es, acc, rp.drop_last());
        let p = rp.last();
        if exists|q: int| 0 <= q < a.len() && #[trigger] es[a[q]].id == es[p].id {
            a
        } else {
            a.push(p)
        }
    }
}

/// What `find` returns: the elements whose text contains `text`, then
/// those with role `role` not already listed (by id).
pub open spec fn find_spec(es: Seq<ElemSpec>, text: Option<Seq<char>>, role: Option<Seq<char>>) -> Seq<
    int,
> {
    let by_text = match text {
        Some(t) => positions_where(es, text_has(t)),
        None => Seq::empty(),
    };
    match role {
        Some(r) => merge_by_id(es, by_text, positions_where(es, role_is(r))),
        None => by_text,
    }
}

pub open spec fn os(o: Option<&str>) -> Option<Seq<char>> {
    match o {
        Some(s) => Some(s@),
        None => None,
    }
}

pub fn find_elements(els: &Vec<SpatialElement>, text: Option<&str>, role: Option<&str>) -> (r: Vec<
    usize,
>)
    ensures
        idx_view(r@) == find_spec(elems_view(els@), os(text), os(role)),
{
    let ghost ev = elems_view(els@);
    let mut results: Vec<usize> = match text {
        Some(t) => find_by_text(els, t),
        None => {
            let v: Vec<usize> = Vec::new();
            proof {
                assert(idx_view(v@) =~= Seq::<int>::empty());
            }
            v
        },
    };
    proof {
        if text is Some {
            lemma_positions_bound(ev, text_has(text->0@));
        }
        assert forall|q: int| 0 <= q < results@.len() implies #[trigger] results@[q] < els@.len() by {
            assert(idx_view(results@)[q] == results@[q] as int);
        }
    }
    match role {
        None => results,
        Some(rl) => {
            let ghost base = idx_view(results@);
            let mut seen: HashSet<u32> = HashSet::new();
            let mut k: usize = 0;
            while k < results.len()
                invariant
                    k <= results@.len(),
                    idx_view(results@) == base,
                    ev == elems_view(els@),
                    forall|q: int| 0 <= q < results@.len() ==> #[trigger] results@[q] < els@.len(),
                    forall|x: u32| #[trigger]
                        seen@.contains(x) <==> exists|q: int|
                            0 <= q < k && els@[results@[q] as int].id == x,
                decreases results.len() - k,
            {
                let id = els[results[k]].id;
                seen.insert(id);
                proof {
                    assert forall|x: u32| #[trigger]
                        seen@.contains(x) <==> exists|q: int|
                            0 <= q < k + 1 && els@[results@[q] as int].id == x by {
                        if seen@.contains(x) && x != id {
                            let q = choose|q: int| 0 <= q < k && els@[results@[q] as int].id == x;
                        }
                    }
                }
                k = k + 1;
            }
            let hits = find_by_role(els, rl);
            let ghost rp = idx_view(hits@);
            proof {
                lemma_positions_bound(ev, role_is(rl@));
                assert forall|q: int| 0 <= q < hits@.len() implies #[trigger] hits@[q] < els@.len() by {
                    assert(rp[q] == hits@[q] as int);
                }
            }
            let mut j: usize = 0;
            proof {
                assert(rp.take(0) =~= Seq::<int>::empty());
            }
            while j < hits.len()
                invariant
                    j <= hits@.len(),
                    rp == idx_view(hits@),
                    ev == elems_view(els@),
                    forall|q: int| 0 <= q < hits@.len() ==> #[trigger] hits@[q] < els@.len(),
                    forall|q: int| 0 <= q < results@.len() ==> #[trigger] results@[q] < els@.len(),
                    idx_view(results@) == merge_by_id(ev, base, rp.take(j as int)),
                    forall|x: u32| #[trigger]
                        seen@.contains(x) <==> exists|q: int|
                            0 <= q < results@.len() && els@[results@[q] as int].id == x,
                decreases hits.len() - j,
            {
                let p = hits[j];
                let id = els[p].id;
                proof {
                    assert(rp.take(j + 1).drop_last() =~= rp.take(j as int));
                    assert(rp.take(j + 1).last() == p as int);
                    let a = idx_view(results@);
                    assert((exists|q: int| 0 <= q < a.len() && #[trigger] ev[a[q]].id == ev[p as int].id)
                        <==> seen@.contains(id)) by {
                        if seen@.contains(id) {
                            let q = choose|q: int|
                                0 <= q < results@.len() && els@[results@[q] as int].id == id;
                            assert(a[q] == results@[q] as int);
                            assert(ev[a[q]].id == ev[p as int].id);
                        }
                        if exists|q: int| 0 <= q < a.len() && #[trigger] ev[a[q]].id == ev[p as int].id {
                            let q = choose|q: int| 0 <= q < a.len() && #[trigger] ev[a[q]].id == ev[p as int].id;
                            assert(a[q] == results@[q] as int);
                            assert(els@[results@[q] as int].id == id);
                        }
                    }
                }
                if seen.insert(id) {
                    let ghost prev = results@;
                    results.push(p);
                    proof {
                        assert(idx_view(results@) =~= idx_view(prev).push(p as int));
                        assert forall|x: u32| #[trigger]
                            seen@.contains(x) <==> exists|q: int|
                                0 <= q < results@.len() && els@[results@[q] as int].id == x by {
                            if seen@.contains(x) && x != id {
                                let q = choose|q: int|
                                    0 <= q < prev.len() && els@[prev[q] as int].id == x;
                                assert(results@[q] == prev[q]);
                            }
                            if exists|q: int| 0 <= q < results@.len() && els@[results@[q] as int].id == x {
                                let q = choose|q: int|
                                    0 <= q < results@.len() && els@[results@[q] as int].id == x;
                                if q < prev.len() {
                                    assert(results@[q] == prev[q]);
                                }
                            }
                            if x == id {
                                assert(results@[prev.len() as int] == p);
                            }
                        }
                    }
                }
                j = j + 1;
            }
            proof {
                assert(rp.take(j as int) =~= rp);
            }
            results
        },
    }
}

/// The elements a `scope` parameter keeps: `visible` drops the hidden ones,
/// `above_fold` those whose top edge is at or below the fold,
/// `visible_above_fold` both; anything else, or nothing, keeps all.
pub open spec fn scope_keeps(scope: Option<Seq<char>>, fold: i64) -> spec_fn(ElemSpec) -> bool {
    |e: ElemSpec|
        if scope == Some("visible"@) {
            shown()(e)
        } else if scope == Some("above_fold"@) {
            above(fold)(e)
        } else if scope == Some("visible_above_fold"@) {
            shown()(e) && above(fold)(e)
        } else {
            true
        }
}

/// The positions of the elements a `scope` parameter keeps, in order.
pub fn scope_positions(els: &Vec<SpatialElement>, scope: Option<&str>, fold: i64) -> (r: Vec<usize>)
    ensures
        idx_view(r@) == positions_where(elems_view(els@), scope_keeps(os(scope), fold)),
{
    let (vis, abv) = match scope {
        Some(sc) => if str_eq(sc, "visible") {
            (true, false)
        } else if str_eq(sc, "above_fold") {
            (false, true)
        } else if str_eq(sc, "visible_above_fold") {
            (true, true)
        } else {
            (false, false)
        },
        None => (false, false),
    };
    let ghost p = scope_keeps(os(scope), fold);
    let ghost ev = elems_view(els@);
    let mut out: Vec<usize> = Vec::new();
    let mut i: usize = 0;
    proof {
        assert(ev.take(0) =~= Seq::<ElemSpec>::empty());
        assert(idx_view(out@) =~= Seq::<int>::empty());
    }
    while i < els.len()
        invariant
            i <= els@.len(),
            ev == elems_view(els@),
            p == scope_keeps(os(scope), fold),
            forall|e: ElemSpec| #[trigger] p(e) == ((!vis || shown()(e)) && (!abv || above(fold)(e))),
            idx_view(out@) == positions_where(ev.take(i as int), p),
        decreases els.len() - i,
    {
        proof {
            assert(ev.take(i + 1).drop_last() =~= ev.take(i as int));
            assert(ev.take(i + 1).last() == els@[i as int].ev());
        }
        let e = &els[i];
        let is_shown = match e.hidden {
            Some(h) => !h,
            None => true,
        };
        let is_above = (e.b[1] as i64) < fold;
        if (!vis || is_shown) && (!abv || is_above) {
            let ghost prev = out@;
            out.push(i);
            proof {
                assert(idx_view(out@) =~= idx_view(prev).push(i as int));
            }
        }
        i = i + 1;
    }
    proof {
        assert(ev.take(i as int) =~= ev);
    }
    out
}

/// Whether an error is the caller's fault (a bad URL, a blocked URL, an
/// impossible action) rather than the network's or the site's.
pub open spec fn client_error_spec(e: FetchError) -> bool {
    e is InvalidUrl || e is ActionError || e is BlockedUrl
}

/// The HTTP status an error is answered with: 400 for the caller's
/// errors, 500 for the others.
pub fn error_status(e: &FetchError) -> (s: u16)
    ensures
        s == if client_error_spec(*e) {
            400u16
        } else {
            500u16
        },
{
    match e {
        FetchError::InvalidUrl(_) => 400,
        FetchError::ActionError(_) => 400,
        FetchError::BlockedUrl(_) => 400,
        _ => 500,
    }
}

} // verus!
