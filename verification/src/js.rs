//! Pattern-based inference of what a page's JavaScript does.
//!
//! Common idioms (visibility toggles, class changes, tabs, navigation) are
//! recognised from attributes and `onclick` source, and their effect on the
//! document tree is simulated without running any script.
use vstd::prelude::*;

use crate::dom::{
    attr_lookup, attrs_insert, attrs_remove, law_get_after_remove, law_get_after_set,
    law_remove_keeps_others, law_set_keeps_others, view_attrs, DomNode, DomView, NodeType,
};
use crate::text::{
    is_word, lemma_words_append, lemma_words_are_words, lemma_words_join, lemma_words_single,
    lemma_trim_end_props, lemma_trim_start_props, occurs_at, starts_with, trim_char_end, trim_char_start,
    trim_end,
    chars_of, contains, find, find_vec, find_vec_from, is_alphanumeric, join, lemma_find_from_bounds,
    push_char, push_str, replace, replace_str, spec_is_alphanumeric, string_of_range, trim, trim_char_range,
    split_whitespace, trim_matches, trim_range, trim_start, view_strings, words,
};

verus! {

broadcast use vstd::string::group_string_axioms;

/// A detected interactive behaviour: the element that triggers it, by its
/// position among the elements that the spatial DOM lists, and its effect.
#[derive(Debug, Clone)]
pub struct JsBehavior {
    pub trigger_id: u32,
    pub action: JsAction,
}

/// An inferred script effect.
#[derive(Debug, Clone)]
pub enum JsAction {
    /// Show or hide the target element.
    ToggleVisibility { target: String },
    /// Add or remove a class on the target element.
    ToggleClass { target: String, class: String },
    /// Show one panel and hide its siblings.
    TabSwitch { show_target: String, hide_targets: Vec<String> },
    /// Submit a form (performed by the session, not on the tree).
    FormSubmit { form_selector: String },
    /// Go to a URL (performed by the session, not on the tree).
    Navigate { url: String },
}

/// The mathematical value of a `JsAction`.
pub enum ActionSpec {
    ToggleVisibility(Seq<char>),
    ToggleClass(Seq<char>, Seq<char>),
    TabSwitch(Seq<char>, Seq<Seq<char>>),
    FormSubmit(Seq<char>),
    Navigate(Seq<char>),
}

impl JsAction {
    pub open spec fn av(&self) -> ActionSpec {
        match self {
            JsAction::ToggleVisibility { target } => ActionSpec::ToggleVisibility(target@),
            JsAction::ToggleClass { target, class } => ActionSpec::ToggleClass(target@, class@),
            JsAction::TabSwitch { show_target, hide_targets } => ActionSpec::TabSwitch(
                show_target@,
                hide_targets@.map_values(|h: String| h@),
            ),
            JsAction::FormSubmit { form_selector } => ActionSpec::FormSubmit(form_selector@),
            JsAction::Navigate { url } => ActionSpec::Navigate(url@),
        }
    }
}

// ---------------------------------------------------------------------------
// Reading onclick source
// ---------------------------------------------------------------------------

/// The text between the first pair of matching quotes at the start of the
/// trimmed input (single or double quotes).
pub open spec fn quoted_spec(s: Seq<char>) -> Option<Seq<char>> {
    let t = trim(s);
    if t.len() == 0 || (t[0] != '\'' && t[0] != '"') {
        None
    } else {
        let rest = t.drop_first();
        match find(rest, seq![t[0]]) {
            Some(e) => Some(rest.take(e)),
            None => None,
        }
    }
}

/// The text after the first occurrence of `pat`, when there is one.
pub open spec fn after(s: Seq<char>, pat: Seq<char>) -> Option<Seq<char>> {
    match find(s, pat) {
        Some(i) => Some(s.skip(i + pat.len())),
        None => None,
    }
}

/// The id in `getElementById('id')`.
pub open spec fn element_id_spec(s: Seq<char>) -> Option<Seq<char>> {
    match after(s, "getElementById("@) {
        Some(rest) => quoted_spec(rest),
        None => None,
    }
}

/// The class in the first of `classList.toggle(`, `classList.add(`,
/// `classList.remove(` that occurs.
pub open spec fn class_toggle_spec(s: Seq<char>) -> Option<Seq<char>> {
    match after(s, "classList.toggle("@) {
        Some(rest) => quoted_spec(rest),
        None => match after(s, "classList.add("@) {
            Some(rest) => quoted_spec(rest),
            None => match after(s, "classList.remove("@) {
                Some(rest) => quoted_spec(rest),
                None => None,
            },
        },
    }
}

/// After the first occurrence of `prefix`, the text up to the next `quote`.
pub open spec fn delimited_after(s: Seq<char>, prefix: Seq<char>, quote: char) -> Option<Seq<char>> {
    match after(s, prefix) {
        Some(rest) => match find(rest, seq![quote]) {
            Some(e) => Some(rest.take(e)),
            None => None,
        },
        None => None,
    }
}

/// The first of a list of (prefix, closing quote) patterns that yields text.
pub open spec fn first_delimited(s: Seq<char>, pats: Seq<(Seq<char>, char)>) -> Option<Seq<char>>
    decreases pats.len(),
{
    if pats.len() == 0 {
        None
    } else {
        match delimited_after(s, pats[0].0, pats[0].1) {
            Some(r) => Some(r),
            None => first_delimited(s, pats.drop_first()),
        }
    }
}

pub open spec fn jquery_prefixes() -> Seq<(Seq<char>, char)> {
    seq![("$('"@, '\''), ("$(\""@, '"'), ("jQuery('"@, '\''), ("jQuery(\""@, '"')]
}

pub open spec fn jquery_class_methods() -> Seq<(Seq<char>, char)> {
    seq![
        (".addClass('"@, '\''),
        (".addClass(\""@, '"'),
        (".removeClass('"@, '\''),
        (".removeClass(\""@, '"'),
        (".toggleClass('"@, '\''),
        (".toggleClass(\""@, '"'),
    ]
}

/// The selector in `$('sel')` or `jQuery("sel")`.
pub open spec fn jquery_selector_spec(s: Seq<char>) -> Option<Seq<char>> {
    first_delimited(s, jquery_prefixes())
}

/// The class in `.addClass('c')`, `.removeClass('c')` or `.toggleClass('c')`.
pub open spec fn jquery_class_spec(s: Seq<char>) -> Option<Seq<char>> {
    first_delimited(s, jquery_class_methods())
}

pub open spec fn is_word_char(c: char) -> bool {
    spec_is_alphanumeric(c) || c == '_'
}

/// The quoted argument of a plain call `name('arg')`, where everything before
/// the first `(` is letters, digits or `_`.
pub open spec fn function_arg_spec(s: Seq<char>) -> Option<Seq<char>> {
    match find(s, seq!['(']) {
        Some(p) => if forall|k: int| 0 <= k < p ==> is_word_char(#[trigger] s[k]) {
            quoted_spec(s.skip(p + 1))
        } else {
            None
        },
        None => None,
    }
}

pub open spec fn url_patterns() -> Seq<Seq<char>> {
    seq![
        "location.href="@,
        "location.href ="@,
        "location="@,
        "location ="@,
        "window.location.href="@,
        "window.location.href ="@,
        "window.location="@,
        "window.location ="@,
    ]
}

/// The first pattern of the list after which a quoted string follows.
pub open spec fn first_assignment(s: Seq<char>, pats: Seq<Seq<char>>) -> Option<Seq<char>>
    decreases pats.len(),
{
    if pats.len() == 0 {
        None
    } else {
        match after(s, pats[0]) {
            Some(rest) => match quoted_spec(trim_start(rest)) {
                Some(u) => Some(u),
                None => first_assignment(s, pats.drop_first()),
            },
            None => first_assignment(s, pats.drop_first()),
        }
    }
}

/// The URL in `location.href = '...'` and its variants.
pub open spec fn url_assignment_spec(s: Seq<char>) -> Option<Seq<char>> {
    first_assignment(s, url_patterns())
}

pub open spec fn contains_any(s: Seq<char>, pats: Seq<Seq<char>>) -> bool {
    exists|i: int| 0 <= i < pats.len() && crate::text::contains(s, #[trigger] pats[i])
}

/// What an `onclick` attribute does, when a known idiom is recognised.
pub open spec fn onclick_spec(raw: Seq<char>) -> Option<ActionSpec> {
    let s = trim(raw);
    match element_id_spec(s) {
        Some(id) => match class_toggle_spec(s) {
            Some(class) => Some(ActionSpec::ToggleClass(seq!['#'] + id, class)),
            None => Some(ActionSpec::ToggleVisibility(seq!['#'] + id)),
        },
        None => {
            let jq = jquery_selector_spec(s);
            if jq is Some && contains_any(s, seq![".toggle("@, ".show("@, ".hide("@]) {
                Some(ActionSpec::ToggleVisibility(jq->0))
            } else if jq is Some && contains_any(
                s,
                seq![".addClass("@, ".removeClass("@, ".toggleClass("@],
            ) && jquery_class_spec(s) is Some {
                Some(ActionSpec::ToggleClass(jq->0, jquery_class_spec(s)->0))
            } else {
                match function_arg_spec(s) {
                    Some(id) => Some(ActionSpec::ToggleVisibility(seq!['#'] + id)),
                    None => if crate::text::contains(s, "location"@) && url_assignment_spec(
                        s,
                    ) is Some {
                        Some(ActionSpec::Navigate(url_assignment_spec(s)->0))
                    } else {
                        None
                    },
                }
            }
        },
    }
}

/// The string made of `v[lo..]` when `lo` is within bounds.
fn tail_from(v: &Vec<char>, lo: usize) -> (r: Vec<char>)
    requires
        lo <= v.len(),
    ensures
        r@ == v@.skip(lo as int),
{
    let mut r: Vec<char> = Vec::new();
    let mut i = lo;
    while i < v.len()
        invariant
            lo <= i <= v.len(),
            r@ == v@.subrange(lo as int, i as int),
        decreases v.len() - i,
    {
        r.push(v[i]);
        proof {
            assert(v@.subrange(lo as int, i + 1) =~= v@.subrange(lo as int, i as int).push(
                v@[i as int],
            ));
        }
        i = i + 1;
    }
    proof {
        assert(v@.subrange(lo as int, v@.len() as int) =~= v@.skip(lo as int));
    }
    r
}

/// The position just after the first occurrence of `pat`.
fn after_vec(s: &Vec<char>, pat: &str) -> (r: Option<usize>)
    ensures
        r matches Some(k) ==> k <= s@.len() && after(s@, pat@) == Some(s@.skip(k as int)),
        r is None ==> after(s@, pat@) is None,
{
    let p = chars_of(pat);
    match find_vec(s, &p) {
        Some(i) => {
            proof {
                lemma_find_from_bounds(s@, p@, 0);
                assert(crate::text::occurs_at(s@, p@, i as int));
                assert(p@.len() == p.len());
                assert(s@.len() == s.len());
            }
            Some(i + p.len())
        },
        None => None,
    }
}

/// `extract_quoted_string`: the text inside the leading quotes of the
/// trimmed input.
fn extract_quoted_string(s: &Vec<char>) -> (r: Option<String>)
    ensures
        r matches Some(v) ==> quoted_spec(s@) == Some(v@),
        r is None ==> quoted_spec(s@) is None,
{
    let (a, b) = trim_range(s, 0, s.len());
    proof {
        assert(s@.subrange(0, s@.len() as int) =~= s@);
    }
    if a == b {
        return None;
    }
    let q = s[a];
    if q != '\'' && q != '"' {
        return None;
    }
    let mut i = a + 1;
    while i < b
        invariant
            a < b <= s.len(),
            a + 1 <= i <= b,
            s@.subrange(a as int, b as int) == trim(s@),
            q == s@[a as int],
            q == '\'' || q == '"',
            forall|k: int| a + 1 <= k < i ==> s@[k] != q,
        decreases b - i,
    {
        if s[i] == q {
            proof {
                let t = s@.subrange(a as int, b as int);
                let rest = t.drop_first();
                let qs = seq![q];
                assert forall|j: int| 0 <= j < i - a - 1 implies !crate::text::occurs_at(
                    rest,
                    qs,
                    j,
                ) by {
                    assert(rest.subrange(j, j + 1)[0] == s@[a + 1 + j]);
                }
                assert(crate::text::occurs_at(rest, qs, i - a - 1)) by {
                    assert(rest.subrange(i - a - 1, i - a) =~= qs);
                }
                lemma_find_first(rest, qs, i - a - 1);
                assert(rest.take(i - a - 1) =~= s@.subrange(a + 1, i as int));
                assert(t == trim(s@));
                assert(t.len() > 0);
                assert(t[0] == q);
                assert(find(rest, seq![t[0]]) == Some(i - a - 1));
                assert(quoted_spec(s@) == Some(rest.take(i - a - 1)));
            }
            return Some(string_of_range(s, a + 1, i));
        }
        i = i + 1;
    }
    proof {
        let t = s@.subrange(a as int, b as int);
        let rest = t.drop_first();
        let qs = seq![q];
        assert forall|j: int| 0 <= j implies !crate::text::occurs_at(rest, qs, j) by {
            if 0 <= j < rest.len() {
                assert(rest.subrange(j, j + 1)[0] == s@[a + 1 + j]);
            }
        }
        lemma_find_none(rest, qs);
    }
    None
}

pub proof fn lemma_find_first(h: Seq<char>, n: Seq<char>, k: int)
    requires
        0 <= k,
        crate::text::occurs_at(h, n, k),
        forall|j: int| 0 <= j < k ==> !crate::text::occurs_at(h, n, j),
    ensures
        find(h, n) == Some(k),
{
    lemma_find_first_from(h, n, 0, k);
}

proof fn lemma_find_first_from(h: Seq<char>, n: Seq<char>, i: int, k: int)
    requires
        0 <= i <= k,
        crate::text::occurs_at(h, n, k),
        forall|j: int| i <= j < k ==> !crate::text::occurs_at(h, n, j),
    ensures
        crate::text::find_from(h, n, i) == Some(k),
    decreases k - i,
{
    if i < k {
        lemma_find_first_from(h, n, i + 1, k);
    }
}

pub proof fn lemma_find_none(h: Seq<char>, n: Seq<char>)
    requires
        forall|j: int| 0 <= j ==> !crate::text::occurs_at(h, n, j),
    ensures
        find(h, n) is None,
{
    lemma_find_none_from(h, n, 0);
}

proof fn lemma_find_none_from(h: Seq<char>, n: Seq<char>, i: int)
    requires
        0 <= i,
        forall|j: int| 0 <= j ==> !crate::text::occurs_at(h, n, j),
    ensures
        crate::text::find_from(h, n, i) is None,
    decreases h.len() - i,
{
    if i + n.len() <= h.len() && i < h.len() {
        lemma_find_none_from(h, n, i + 1);
    }
}

/// The text up to the first `quote` after the first occurrence of `prefix`.
fn delimited_after_exec(s: &Vec<char>, prefix: &str, quote: char) -> (r: Option<String>)
    ensures
        r matches Some(v) ==> delimited_after(s@, prefix@, quote) == Some(v@),
        r is None ==> delimited_after(s@, prefix@, quote) is None,
{
    match after_vec(s, prefix) {
        Some(k) => {
            let rest = tail_from(s, k);
            let q = vec![quote];
            proof {
                assert(q@ =~= seq![quote]);
            }
            match find_vec(&rest, &q) {
                Some(e) => {
                    proof {
                        lemma_find_from_bounds(rest@, q@, 0);
                        assert(rest@.take(e as int) =~= rest@.subrange(0, e as int));
                    }
                    Some(string_of_range(&rest, 0, e))
                },
                None => None,
            }
        },
        None => None,
    }
}

/// The quoted string that follows the first occurrence of `pat`.
fn quoted_after(s: &Vec<char>, pat: &str) -> (r: Option<String>)
    ensures
        r matches Some(v) ==> after(s@, pat@) matches Some(rest) && quoted_spec(rest) == Some(v@),
        r is None ==> after(s@, pat@) is None || quoted_spec(after(s@, pat@)->0) is None,
{
    match after_vec(s, pat) {
        Some(k) => {
            let rest = tail_from(s, k);
            extract_quoted_string(&rest)
        },
        None => None,
    }
}

/// `extract_element_id`: the id in `getElementById('id')`.
fn extract_element_id(s: &Vec<char>) -> (r: Option<String>)
    ensures
        r matches Some(v) ==> element_id_spec(s@) == Some(v@),
        r is None ==> element_id_spec(s@) is None,
{
    proof {
        reveal_strlit("getElementById(");
    }
    quoted_after(s, "getElementById(")
}

/// `extract_class_toggle`: the class of the first `classList` call found.
fn extract_class_toggle(s: &Vec<char>) -> (r: Option<String>)
    ensures
        r matches Some(v) ==> class_toggle_spec(s@) == Some(v@),
        r is None ==> class_toggle_spec(s@) is None,
{
    if after_vec(s, "classList.toggle(").is_some() {
        return quoted_after(s, "classList.toggle(");
    }
    if after_vec(s, "classList.add(").is_some() {
        return quoted_after(s, "classList.add(");
    }
    if after_vec(s, "classList.remove(").is_some() {
        return quoted_after(s, "classList.remove(");
    }
    None
}

/// `extract_jquery_selector`: the selector in `$('...')` or `jQuery("...")`.
fn extract_jquery_selector(s: &Vec<char>) -> (r: Option<String>)
    ensures
        r matches Some(v) ==> jquery_selector_spec(s@) == Some(v@),
        r is None ==> jquery_selector_spec(s@) is None,
{
    proof {
        reveal_with_fuel(first_delimited, 5);
        let p = jquery_prefixes();
        assert(p.drop_first()[0] == p[1]);
        assert(p.drop_first().drop_first()[0] == p[2]);
        assert(p.drop_first().drop_first().drop_first()[0] == p[3]);
        assert(p.drop_first().drop_first().drop_first().drop_first().len() == 0);
    }
    let r = delimited_after_exec(s, "$('", '\'');
    if r.is_some() {
        return r;
    }
    let r = delimited_after_exec(s, "$(\"", '"');
    if r.is_some() {
        return r;
    }
    let r = delimited_after_exec(s, "jQuery('", '\'');
    if r.is_some() {
        return r;
    }
    delimited_after_exec(s, "jQuery(\"", '"')
}

/// `extract_jquery_class`: the class in `.addClass`, `.removeClass` or
/// `.toggleClass` calls.
fn extract_jquery_class(s: &Vec<char>) -> (r: Option<String>)
    ensures
        r matches Some(v) ==> jquery_class_spec(s@) == Some(v@),
        r is None ==> jquery_class_spec(s@) is None,
{
    proof {
        reveal_with_fuel(first_delimited, 7);
        let p = jquery_class_methods();
        assert(p.drop_first()[0] == p[1]);
        assert(p.drop_first().drop_first()[0] == p[2]);
        assert(p.drop_first().drop_first().drop_first()[0] == p[3]);
        assert(p.drop_first().drop_first().drop_first().drop_first()[0] == p[4]);
        assert(p.drop_first().drop_first().drop_first().drop_first().drop_first()[0] == p[5]);
        assert(p.drop_first().drop_first().drop_first().drop_first().drop_first().drop_first().len()
            == 0);
    }
    let r = delimited_after_exec(s, ".addClass('", '\'');
    if r.is_some() {
        return r;
    }
    let r = delimited_after_exec(s, ".addClass(\"", '"');
    if r.is_some() {
        return r;
    }
    let r = delimited_after_exec(s, ".removeClass('", '\'');
    if r.is_some() {
        return r;
    }
    let r = delimited_after_exec(s, ".removeClass(\"", '"');
    if r.is_some() {
        return r;
    }
    let r = delimited_after_exec(s, ".toggleClass('", '\'');
    if r.is_some() {
        return r;
    }
    delimited_after_exec(s, ".toggleClass(\"", '"')
}

/// `extract_function_arg`: the quoted argument of `name('arg')`.
fn extract_function_arg(s: &Vec<char>) -> (r: Option<String>)
    ensures
        r matches Some(v) ==> function_arg_spec(s@) == Some(v@),
        r is None ==> function_arg_spec(s@) is None,
{
    let paren = vec!['('];
    proof {
        assert(paren@ =~= seq!['(']);
    }
    match find_vec(s, &paren) {
        Some(p) => {
            proof {
                lemma_find_from_bounds(s@, paren@, 0);
            }
            let mut k: usize = 0;
            while k < p
                invariant
                    p < s.len(),
                    k <= p,
                    find(s@, seq!['(']) == Some(p as int),
                    forall|m: int| 0 <= m < k ==> is_word_char(#[trigger] s@[m]),
                decreases p - k,
            {
                let c = s[k];
                if !(is_alphanumeric(c) || c == '_') {
                    proof {
                        assert(!is_word_char(s@[k as int]));
                        assert(!(forall|m: int| 0 <= m < p ==> is_word_char(#[trigger] s@[m])));
                        assert(find(s@, seq!['(']) == Some(p as int));
                        assert(function_arg_spec(s@) is None);
                    }
                    return None;
                }
                k = k + 1;
            }
            let rest = tail_from(s, p + 1);
            extract_quoted_string(&rest)
        },
        None => None,
    }
}

proof fn lemma_trim_start_idem(s: Seq<char>)
    ensures
        trim_start(trim_start(s)) == trim_start(s),
{
    crate::text::lemma_trim_start_props(s);
}

/// The quoted string after `pat`, once leading whitespace is skipped.
fn assignment_after(s: &Vec<char>, pat: &str) -> (r: Option<String>)
    ensures
        r matches Some(v) ==> after(s@, pat@) matches Some(rest) && quoted_spec(trim_start(rest))
            == Some(v@),
        r is None ==> after(s@, pat@) is None || quoted_spec(trim_start(after(s@, pat@)->0))
            is None,
{
    match after_vec(s, pat) {
        Some(k) => {
            let rest = tail_from(s, k);
            proof {
                lemma_trim_start_idem(rest@);
                assert(trim(trim_start(rest@)) == trim(rest@));
                assert(quoted_spec(trim_start(rest@)) == quoted_spec(rest@));
            }
            extract_quoted_string(&rest)
        },
        None => None,
    }
}

/// `extract_url_assignment`: the URL assigned to `location` or
/// `window.location`.
fn extract_url_assignment(s: &Vec<char>) -> (r: Option<String>)
    ensures
        r matches Some(v) ==> url_assignment_spec(s@) == Some(v@),
        r is None ==> url_assignment_spec(s@) is None,
{
    proof {
        reveal_with_fuel(first_assignment, 9);
        let p = url_patterns();
        assert(p.drop_first()[0] == p[1]);
        assert(p.drop_first().drop_first()[0] == p[2]);
        assert(p.drop_first().drop_first().drop_first()[0] == p[3]);
        assert(p.drop_first().drop_first().drop_first().drop_first()[0] == p[4]);
        assert(p.drop_first().drop_first().drop_first().drop_first().drop_first()[0] == p[5]);
        assert(p.drop_first().drop_first().drop_first().drop_first().drop_first().drop_first()[0]
            == p[6]);
        assert(p.drop_first().drop_first().drop_first().drop_first().drop_first().drop_first().drop_first()[0]
            == p[7]);
        assert(p.drop_first().drop_first().drop_first().drop_first().drop_first().drop_first().drop_first().drop_first().len()
            == 0);
    }
    let r = assignment_after(s, "location.href=");
    if r.is_some() {
        return r;
    }
    let r = assignment_after(s, "location.href =");
    if r.is_some() {
        return r;
    }
    let r = assignment_after(s, "location=");
    if r.is_some() {
        return r;
    }
    let r = assignment_after(s, "location =");
    if r.is_some() {
        return r;
    }
    let r = assignment_after(s, "window.location.href=");
    if r.is_some() {
        return r;
    }
    let r = assignment_after(s, "window.location.href =");
    if r.is_some() {
        return r;
    }
    let r = assignment_after(s, "window.location=");
    if r.is_some() {
        return r;
    }
    assignment_after(s, "window.location =")
}

fn contains_vec(s: &Vec<char>, pat: &str) -> (b: bool)
    ensures
        b == crate::text::contains(s@, pat@),
{
    let p = chars_of(pat);
    find_vec(s, &p).is_some()
}

fn sub_vec(v: &Vec<char>, lo: usize, hi: usize) -> (r: Vec<char>)
    requires
        lo <= hi <= v.len(),
    ensures
        r@ == v@.subrange(lo as int, hi as int),
{
    let mut r: Vec<char> = Vec::new();
    let mut i = lo;
    while i < hi
        invariant
            lo <= i <= hi <= v.len(),
            r@ == v@.subrange(lo as int, i as int),
        decreases hi - i,
    {
        r.push(v[i]);
        proof {
            assert(v@.subrange(lo as int, i + 1) =~= v@.subrange(lo as int, i as int).push(
                v@[i as int],
            ));
        }
        i = i + 1;
    }
    r
}

/// `#` followed by the id.
fn hash_id(id: String) -> (r: String)
    ensures
        r@ == seq!['#'] + id@,
{
    let mut r = String::new();
    push_char(&mut r, '#');
    push_str(&mut r, id.as_str());
    proof {
        assert(Seq::<char>::empty().push('#') =~= seq!['#']);
    }
    r
}

proof fn lemma_contains_any3(s: Seq<char>, a: Seq<char>, b: Seq<char>, c: Seq<char>)
    ensures
        contains_any(s, seq![a, b, c]) == (crate::text::contains(s, a) || crate::text::contains(
            s,
            b,
        ) || crate::text::contains(s, c)),
{
    let p = seq![a, b, c];
    assert(p[0] == a && p[1] == b && p[2] == c);
    if contains_any(s, p) {
        let i = choose|i: int| 0 <= i < p.len() && crate::text::contains(s, #[trigger] p[i]);
        assert(i == 0 || i == 1 || i == 2);
    }
}

/// `parse_onclick`: the action of an `onclick` attribute, when one of the
/// known idioms is recognised.
fn parse_onclick(onclick: &str) -> (r: Option<JsAction>)
    ensures
        r matches Some(a) ==> onclick_spec(onclick@) == Some(a.av()),
        r is None ==> onclick_spec(onclick@) is None,
{
    let raw = chars_of(onclick);
    let (a, b) = trim_range(&raw, 0, raw.len());
    proof {
        assert(raw@.subrange(0, raw@.len() as int) =~= raw@);
    }
    let s = sub_vec(&raw, a, b);
    if let Some(id) = extract_element_id(&s) {
        if let Some(class) = extract_class_toggle(&s) {
            return Some(JsAction::ToggleClass { target: hash_id(id), class });
        }
        return Some(JsAction::ToggleVisibility { target: hash_id(id) });
    }
    proof {
        lemma_contains_any3(s@, ".toggle("@, ".show("@, ".hide("@);
        lemma_contains_any3(s@, ".addClass("@, ".removeClass("@, ".toggleClass("@);
    }
    if let Some(selector) = extract_jquery_selector(&s) {
        if contains_vec(&s, ".toggle(") || contains_vec(&s, ".show(") || contains_vec(&s, ".hide(") {
            return Some(JsAction::ToggleVisibility { target: selector });
        }
        if contains_vec(&s, ".addClass(") || contains_vec(&s, ".removeClass(") || contains_vec(
            &s,
            ".toggleClass(",
        ) {
            if let Some(class) = extract_jquery_class(&s) {
                return Some(JsAction::ToggleClass { target: selector, class });
            }
        }
    }
    if let Some(id) = extract_function_arg(&s) {
        return Some(JsAction::ToggleVisibility { target: hash_id(id) });
    }
    if contains_vec(&s, "location") {
        if let Some(url) = extract_url_assignment(&s) {
            return Some(JsAction::Navigate { url });
        }
    }
    None
}

// ---------------------------------------------------------------------------
// Detecting behaviours in a tree
// ---------------------------------------------------------------------------

/// The mathematical value of a `JsBehavior`.
pub struct BehaviorSpec {
    pub trigger_id: nat,
    pub action: ActionSpec,
}

impl JsBehavior {
    pub open spec fn bv(&self) -> BehaviorSpec {
        BehaviorSpec { trigger_id: self.trigger_id as nat, action: self.action.av() }
    }
}

pub open spec fn behavior_views(v: Seq<JsBehavior>) -> Seq<BehaviorSpec> {
    v.map_values(|b: JsBehavior| b.bv())
}

pub open spec fn interactive_tag_spec(t: Seq<char>) -> bool {
    t == "a"@ || t == "button"@ || t == "input"@ || t == "select"@ || t == "textarea"@ || t
        == "details"@ || t == "summary"@
}

pub open spec fn text_tag_spec(t: Seq<char>) -> bool {
    t == "h1"@ || t == "h2"@ || t == "h3"@ || t == "h4"@ || t == "h5"@ || t == "h6"@ || t
        == "p"@ || t == "label"@ || t == "span"@ || t == "li"@ || t == "td"@ || t == "th"@ || t
        == "dt"@ || t == "dd"@ || t == "figcaption"@ || t == "blockquote"@ || t == "pre"@ || t
        == "code"@ || t == "em"@ || t == "strong"@ || t == "b"@ || t == "i"@ || t == "mark"@ || t
        == "small"@
}

/// The action of a Bootstrap-style `data-toggle`: tabs and pills aimed at
/// `#id` switch to that panel, everything else toggles its target.
pub open spec fn data_toggle_action(toggle: Seq<char>, target: Seq<char>) -> ActionSpec {
    if (toggle == "tab"@ || toggle == "pill"@) && target.len() > 0 && target[0] == '#' {
        ActionSpec::TabSwitch(target.drop_first(), Seq::empty())
    } else {
        ActionSpec::ToggleVisibility(target)
    }
}

pub open spec fn attr_is(v: DomView, name: Seq<char>) -> Option<Seq<char>> {
    attr_lookup(v.attrs, name)
}

/// The actions an element triggers, in the order they are reported:
/// its `onclick`, its `data-toggle`, its `aria-controls` toggle and its tab role.
pub open spec fn own_actions(v: DomView) -> Seq<ActionSpec> {
    let a1 = match attr_is(v, "onclick"@) {
        Some(oc) => match onclick_spec(oc) {
            Some(a) => seq![a],
            None => Seq::empty(),
        },
        None => Seq::empty(),
    };
    let target = match attr_is(v, "data-target"@) {
        Some(t) => Some(t),
        None => attr_is(v, "href"@),
    };
    let a2 = match attr_is(v, "data-toggle"@) {
        Some(tg) => match target {
            Some(t) => seq![data_toggle_action(tg, t)],
            None => Seq::empty(),
        },
        None => Seq::empty(),
    };
    let a3 = match attr_is(v, "aria-controls"@) {
        Some(c) => if attr_is(v, "aria-expanded"@) is Some {
            seq![ActionSpec::ToggleVisibility(seq!['#'] + c)]
        } else {
            Seq::empty()
        },
        None => Seq::empty(),
    };
    let a4 = if attr_is(v, "role"@) == Some("tab"@) {
        match attr_is(v, "aria-controls"@) {
            Some(c) => seq![ActionSpec::TabSwitch(c, Seq::empty())],
            None => Seq::empty(),
        }
    } else {
        Seq::empty()
    };
    a1 + a2 + a3 + a4
}

/// Whether an element gets an id in the spatial DOM numbering.
pub open spec fn is_counted(v: DomView) -> bool {
    interactive_tag_spec(v.tag) || text_tag_spec(v.tag) || crate::output::landmark_tag(v.tag)
        || attr_is(v, "role"@) is Some || attr_is(
        v,
        "onclick"@,
    ) is Some || attr_is(v, "tabindex"@) is Some
}

pub open spec fn tag_actions(acts: Seq<ActionSpec>, id: nat) -> Seq<BehaviorSpec> {
    acts.map_values(|a: ActionSpec| BehaviorSpec { trigger_id: id, action: a })
}

/// Behaviours of a subtree whose first counted element gets id `c`, with the
/// counter after the subtree.
pub open spec fn behaviors_spec(v: DomView, c: nat) -> (Seq<BehaviorSpec>, nat)
    decreases v, 0int,
{
    let own = if v.node_type == NodeType::Element {
        tag_actions(own_actions(v), c)
    } else {
        Seq::empty()
    };
    let c1 = if v.node_type == NodeType::Element && is_counted(v) {
        c + 1
    } else {
        c
    };
    let (kids, c2) = behaviors_upto(v.children, v.children.len() as int, c1);
    (own + kids, c2)
}

pub open spec fn behaviors_upto(cs: Seq<DomView>, k: int, c: nat) -> (Seq<BehaviorSpec>, nat)
    decreases cs, k,
{
    if k <= 0 || k > cs.len() {
        (Seq::empty(), c)
    } else {
        let (b1, c1) = behaviors_upto(cs, k - 1, c);
        let (b2, c2) = behaviors_spec(cs[k - 1], c1);
        (b1 + b2, c2)
    }
}

pub proof fn lemma_behaviors_mono(v: DomView, c: nat)
    ensures
        behaviors_spec(v, c).1 >= c,
    decreases v, 0int,
{
    let c1 = if v.node_type == NodeType::Element && is_counted(v) {
        c + 1
    } else {
        c
    };
    lemma_upto_mono(v.children, v.children.len() as int, c1);
}

pub proof fn lemma_upto_mono(cs: Seq<DomView>, k: int, c: nat)
    ensures
        behaviors_upto(cs, k, c).1 >= c,
    decreases cs, k,
{
    if k <= 0 || k > cs.len() {
    } else {
        lemma_upto_mono(cs, k - 1, c);
        lemma_behaviors_mono(cs[k - 1], behaviors_upto(cs, k - 1, c).1);
    }
}

pub proof fn lemma_upto_prefix(cs: Seq<DomView>, k: int, n: int, c: nat)
    requires
        0 <= k <= n <= cs.len(),
    ensures
        behaviors_upto(cs, k, c).1 <= behaviors_upto(cs, n, c).1,
    decreases n - k,
{
    if k < n {
        lemma_upto_prefix(cs, k, n - 1, c);
        lemma_behaviors_mono(cs[n - 1], behaviors_upto(cs, n - 1, c).1);
    }
}

pub fn is_interactive_tag(tag: &str) -> (b: bool)
    ensures
        b == interactive_tag_spec(tag@),
{
    crate::text::str_eq(tag, "a") || crate::text::str_eq(tag, "button") || crate::text::str_eq(
        tag,
        "input",
    ) || crate::text::str_eq(tag, "select") || crate::text::str_eq(tag, "textarea")
        || crate::text::str_eq(tag, "details") || crate::text::str_eq(tag, "summary")
}

pub fn is_text_tag(tag: &str) -> (b: bool)
    ensures
        b == text_tag_spec(tag@),
{
    let t = tag;
    crate::text::str_eq(t, "h1") || crate::text::str_eq(t, "h2") || crate::text::str_eq(t, "h3")
        || crate::text::str_eq(t, "h4") || crate::text::str_eq(t, "h5") || crate::text::str_eq(
        t,
        "h6",
    ) || crate::text::str_eq(t, "p") || crate::text::str_eq(t, "label") || crate::text::str_eq(
        t,
        "span",
    ) || crate::text::str_eq(t, "li") || crate::text::str_eq(t, "td") || crate::text::str_eq(
        t,
        "th",
    ) || crate::text::str_eq(t, "dt") || crate::text::str_eq(t, "dd") || crate::text::str_eq(
        t,
        "figcaption",
    ) || crate::text::str_eq(t, "blockquote") || crate::text::str_eq(t, "pre")
        || crate::text::str_eq(t, "code") || crate::text::str_eq(t, "em") || crate::text::str_eq(
        t,
        "strong",
    ) || crate::text::str_eq(t, "b") || crate::text::str_eq(t, "i") || crate::text::str_eq(
        t,
        "mark",
    ) || crate::text::str_eq(t, "small")
}

proof fn lemma_tag_actions_push(a: Seq<ActionSpec>, x: ActionSpec, id: nat)
    ensures
        tag_actions(a.push(x), id) == tag_actions(a, id).push(
            BehaviorSpec { trigger_id: id, action: x },
        ),
{
    assert(tag_actions(a.push(x), id) =~= tag_actions(a, id).push(
        BehaviorSpec { trigger_id: id, action: x },
    ));
}

fn push_behavior(behaviors: &mut Vec<JsBehavior>, id: u32, action: JsAction)
    ensures
        behavior_views(final(behaviors)@) == behavior_views(old(behaviors)@).push(
            BehaviorSpec { trigger_id: id as nat, action: action.av() },
        ),
{
    let ghost prev = behaviors@;
    let ghost av = action.av();
    behaviors.push(JsBehavior { trigger_id: id, action });
    proof {
        assert(behavior_views(behaviors@) =~= behavior_views(prev).push(
            BehaviorSpec { trigger_id: id as nat, action: av },
        ));
    }
}

fn data_toggle_exec(toggle: &str, target: &str) -> (a: JsAction)
    ensures
        a.av() == data_toggle_action(toggle@, target@),
{
    let tv = chars_of(target);
    if (crate::text::str_eq(toggle, "tab") || crate::text::str_eq(toggle, "pill")) && tv.len() > 0
        && tv[0] == '#' {
        let show = string_of_range(&tv, 1, tv.len());
        let hides: Vec<String> = Vec::new();
        proof {
            assert(tv@.subrange(1, tv@.len() as int) =~= target@.drop_first());
            assert(hides@.map_values(|h: String| h@) =~= Seq::<Seq<char>>::empty());
        }
        JsAction::TabSwitch { show_target: show, hide_targets: hides }
    } else {
        JsAction::ToggleVisibility { target: crate::text::to_owned(target) }
    }
}

/// Pushes the behaviours of one element, all with trigger id `id`.
fn own_behaviors(node: &DomNode, id: u32, behaviors: &mut Vec<JsBehavior>)
    ensures
        behavior_views(final(behaviors)@) == behavior_views(old(behaviors)@) + tag_actions(
            own_actions(node.dv()),
            id as nat,
        ),
{
    let ghost v = node.dv();
    let ghost b0 = behavior_views(behaviors@);
    let ghost mut acts: Seq<ActionSpec> = Seq::empty();
    proof {
        assert(v.attrs == view_attrs(node.attributes@));
        assert(b0 + tag_actions(acts, id as nat) =~= b0);
    }
    if let Some(oc) = node.get_attr("onclick") {
        if let Some(a) = parse_onclick(oc) {
            let ghost x = a.av();
            push_behavior(behaviors, id, a);
            proof {
                lemma_tag_actions_push(acts, x, id as nat);
                acts = acts.push(x);
            }
        }
    }
    proof {
        assert(acts =~= match attr_is(v, "onclick"@) {
            Some(oc) => match onclick_spec(oc) {
                Some(a) => seq![a],
                None => Seq::empty(),
            },
            None => Seq::empty(),
        });
    }
    let ghost acts1 = acts;
    if let Some(toggle) = node.get_attr("data-toggle") {
        let target = match node.get_attr("data-target") {
            Some(t) => Some(t),
            None => node.get_attr("href"),
        };
        if let Some(target) = target {
            let a = data_toggle_exec(toggle, target);
            let ghost x = a.av();
            push_behavior(behaviors, id, a);
            proof {
                lemma_tag_actions_push(acts, x, id as nat);
                acts = acts.push(x);
            }
        }
    }
    let ghost acts2 = acts;
    if let Some(controls) = node.get_attr("aria-controls") {
        if node.get_attr("aria-expanded").is_some() {
            let a = JsAction::ToggleVisibility { target: hash_id(crate::text::to_owned(controls)) };
            let ghost x = a.av();
            push_behavior(behaviors, id, a);
            proof {
                lemma_tag_actions_push(acts, x, id as nat);
                acts = acts.push(x);
            }
        }
    }
    let ghost acts3 = acts;
    let role_tab = match node.get_attr("role") {
        Some(r) => crate::text::str_eq(r, "tab"),
        None => false,
    };
    if role_tab {
        if let Some(controls) = node.get_attr("aria-controls") {
            let hides: Vec<String> = Vec::new();
            let a = JsAction::TabSwitch {
                show_target: crate::text::to_owned(controls),
                hide_targets: hides,
            };
            proof {
                assert(hides@.map_values(|h: String| h@) =~= Seq::<Seq<char>>::empty());
            }
            let ghost x = a.av();
            push_behavior(behaviors, id, a);
            proof {
                lemma_tag_actions_push(acts, x, id as nat);
                acts = acts.push(x);
            }
        }
    }
    proof {
        let own = own_actions(v);
        assert(acts =~= own);
        assert(behavior_views(behaviors@) =~= b0 + tag_actions(own, id as nat));
    }
}

fn detect_behaviors_recursive(
    node: &DomNode,
    behaviors: &mut Vec<JsBehavior>,
    id_counter: &mut u32,
)
    requires
        behaviors_spec(node.dv(), *old(id_counter) as nat).1 <= u32::MAX,
    ensures
        behavior_views(final(behaviors)@) == behavior_views(old(behaviors)@) + behaviors_spec(
            node.dv(),
            *old(id_counter) as nat,
        ).0,
        *final(id_counter) as nat == behaviors_spec(node.dv(), *old(id_counter) as nat).1,
    decreases node,
{
    let ghost v = node.dv();
    let ghost c0 = *id_counter as nat;
    let ghost b0 = behavior_views(behaviors@);
    proof {
        crate::dom::lemma_dv_children(node);
        assert(v.attrs == view_attrs(node.attributes@));
        assert(v.tag == node.tag@);
    }
    let ghost own = if v.node_type == NodeType::Element {
        tag_actions(own_actions(v), c0)
    } else {
        Seq::empty()
    };
    let ghost c1: nat = if v.node_type == NodeType::Element && is_counted(v) {
        c0 + 1
    } else {
        c0
    };
    if node.node_type == NodeType::Element {
        own_behaviors(node, *id_counter, behaviors);
        let tag = node.tag.as_str();
        let counted = is_interactive_tag(tag) || is_text_tag(tag)
            || crate::output::is_landmark_tag(tag) || node.has_attr("role")
            || node.has_attr("onclick") || node.has_attr("tabindex");
        if counted {
            proof {
                lemma_upto_mono(v.children, v.children.len() as int, c1);
            }
            *id_counter = *id_counter + 1;
        }
    } else {
        proof {
            assert(b0 + own =~= b0);
        }
    }
    let ghost cs = v.children;
    let mut i: usize = 0;
    while i < node.children.len()
        invariant
            v == node.dv(),
            cs == v.children,
            cs == crate::dom::children_views(node.children@),
            i <= node.children@.len(),
            behaviors_upto(cs, cs.len() as int, c1).1 <= u32::MAX,
            behaviors_spec(v, c0) == (own + behaviors_upto(cs, cs.len() as int, c1).0,
            behaviors_upto(cs, cs.len() as int, c1).1),
            behavior_views(behaviors@) == b0 + own + behaviors_upto(cs, i as int, c1).0,
            *id_counter as nat == behaviors_upto(cs, i as int, c1).1,
        decreases node.children.len() - i,
    {
        proof {
            lemma_upto_prefix(cs, i + 1, cs.len() as int, c1);
        }
        let ghost before = behavior_views(behaviors@);
        detect_behaviors_recursive(&node.children[i], behaviors, id_counter);
        proof {
            let u = behaviors_upto(cs, i as int, c1);
            let w = behaviors_spec(cs[i as int], u.1);
            assert(behaviors_upto(cs, i + 1, c1) == (u.0 + w.0, w.1));
            assert(b0 + own + u.0 + w.0 =~= b0 + own + (u.0 + w.0));
        }
        i = i + 1;
    }
    proof {
        assert(b0 + own + behaviors_upto(cs, cs.len() as int, c1).0 =~= b0 + (own
            + behaviors_upto(cs, cs.len() as int, c1).0));
    }
}

/// The interactive behaviours the page's markup reveals, in document order.
/// Trigger ids count the elements that the spatial DOM lists, from 1.
pub fn detect_behaviors(dom: &DomNode) -> (r: Vec<JsBehavior>)
    requires
        behaviors_spec(dom.dv(), 1).1 <= u32::MAX,
    ensures
        behavior_views(r@) == behaviors_spec(dom.dv(), 1).0,
{
    let mut behaviors: Vec<JsBehavior> = Vec::new();
    let mut id_counter: u32 = 1;
    detect_behaviors_recursive(dom, &mut behaviors, &mut id_counter);
    proof {
        assert(behavior_views(Seq::<JsBehavior>::empty()) + behaviors_spec(dom.dv(), 1).0
            =~= behaviors_spec(dom.dv(), 1).0);
    }
    behaviors
}

// ---------------------------------------------------------------------------
// Simulating actions on a tree
// ---------------------------------------------------------------------------

pub type Attrs = Seq<(Seq<char>, Seq<char>)>;

/// Whether the attributes hide an element: a `style` with `display: none`
/// (with or without the space), or a `hidden` attribute.
pub open spec fn hidden_attrs(a: Attrs) -> bool {
    (attr_lookup(a, "style"@) matches Some(st) && (contains(st, "display: none"@) || contains(
        st,
        "display:none"@,
    ))) || attr_lookup(a, "hidden"@) is Some
}

/// A style with every `display: none` / `display:none` removed, then stray
/// `;` and whitespace trimmed from the ends.
pub open spec fn cleaned_style(st: Seq<char>) -> Seq<char> {
    trim(
        trim_matches(
            replace(replace(st, "display: none"@, Seq::empty()), "display:none"@, Seq::empty()),
            ';',
        ),
    )
}

/// Attributes of a shown element: no `hidden`, and no `display: none` in its style.
pub open spec fn shown_attrs(a: Attrs) -> Attrs {
    let a1 = attrs_remove(a, "hidden"@);
    match attr_lookup(a1, "style"@) {
        Some(st) => attrs_insert(a1, "style"@, cleaned_style(st)),
        None => a1,
    }
}

/// The style with `display: none` appended.
pub open spec fn style_hidden(cur: Seq<char>) -> Seq<char> {
    if cur.len() == 0 {
        "display: none"@
    } else {
        cur + "; display: none"@
    }
}

pub open spec fn style_of(a: Attrs) -> Seq<char> {
    match attr_lookup(a, "style"@) {
        Some(st) => st,
        None => Seq::empty(),
    }
}

/// Attributes after a visibility toggle.
pub open spec fn toggled_attrs(a: Attrs) -> Attrs {
    if hidden_attrs(a) {
        shown_attrs(a)
    } else {
        attrs_insert(a, "style"@, style_hidden(style_of(a)))
    }
}

/// Attributes after an explicit hide: `display: none` is added unless the
/// style already has it.
pub open spec fn hidden_set_attrs(a: Attrs) -> Attrs {
    let cur = style_of(a);
    if cur.len() == 0 {
        attrs_insert(a, "style"@, "display: none"@)
    } else if !contains(cur, "display: none"@) && !contains(cur, "display:none"@) {
        attrs_insert(a, "style"@, cur + "; display: none"@)
    } else {
        a
    }
}

/// The predicate "is not `class`".
pub open spec fn other_than(class: Seq<char>) -> spec_fn(Seq<char>) -> bool {
    |w: Seq<char>| w != class
}

/// Attributes after toggling `class` in the `class` attribute.
pub open spec fn class_toggled_attrs(a: Attrs, class: Seq<char>) -> Attrs {
    let cur = match attr_lookup(a, "class"@) {
        Some(c) => c,
        None => Seq::empty(),
    };
    let list = words(cur);
    if list.contains(class) {
        attrs_insert(a, "class"@, join(list.filter(other_than(class)), seq![' ']))
    } else if cur.len() == 0 {
        attrs_insert(a, "class"@, class)
    } else {
        attrs_insert(a, "class"@, cur + seq![' '] + class)
    }
}

pub open spec fn with_attrs(v: DomView, a: Attrs) -> DomView {
    DomView { tag: v.tag, attrs: a, text: v.text, children: v.children, node_type: v.node_type }
}

pub open spec fn is_target(v: DomView, id: Seq<char>) -> bool {
    v.node_type == NodeType::Element && attr_lookup(v.attrs, "id"@) == Some(id)
}

/// The tree after toggling the first element (in document order along each
/// path) whose id is `id`; the subtree under a match is left as it is.
pub open spec fn toggle_visibility_spec(v: DomView, id: Seq<char>) -> DomView
    decreases v,
{
    if is_target(v, id) {
        with_attrs(v, toggled_attrs(v.attrs))
    } else {
        DomView {
            tag: v.tag,
            attrs: v.attrs,
            text: v.text,
            children: Seq::new(
                v.children.len(),
                |i: int|
                    if 0 <= i < v.children.len() {
                        toggle_visibility_spec(v.children[i], id)
                    } else {
                        arbitrary()
                    },
            ),
            node_type: v.node_type,
        }
    }
}

/// The tree with the elements whose id is `id` shown or hidden.
pub open spec fn set_visibility_spec(v: DomView, id: Seq<char>, visible: bool) -> DomView
    decreases v,
{
    if is_target(v, id) {
        with_attrs(
            v,
            if visible {
                shown_attrs(v.attrs)
            } else {
                hidden_set_attrs(v.attrs)
            },
        )
    } else {
        DomView {
            tag: v.tag,
            attrs: v.attrs,
            text: v.text,
            children: Seq::new(
                v.children.len(),
                |i: int|
                    if 0 <= i < v.children.len() {
                        set_visibility_spec(v.children[i], id, visible)
                    } else {
                        arbitrary()
                    },
            ),
            node_type: v.node_type,
        }
    }
}

/// The tree with `class` toggled on the elements whose id is `id`.
pub open spec fn toggle_class_spec(v: DomView, id: Seq<char>, class: Seq<char>) -> DomView
    decreases v,
{
    if is_target(v, id) {
        with_attrs(v, class_toggled_attrs(v.attrs, class))
    } else {
        DomView {
            tag: v.tag,
            attrs: v.attrs,
            text: v.text,
            children: Seq::new(
                v.children.len(),
                |i: int|
                    if 0 <= i < v.children.len() {
                        toggle_class_spec(v.children[i], id, class)
                    } else {
                        arbitrary()
                    },
            ),
            node_type: v.node_type,
        }
    }
}

/// Hiding each of the panels in turn.
pub open spec fn hide_all_spec(v: DomView, hides: Seq<Seq<char>>) -> DomView
    decreases hides.len(),
{
    if hides.len() == 0 {
        v
    } else {
        set_visibility_spec(hide_all_spec(v, hides.drop_last()), hides.last(), false)
    }
}

/// A target without its leading `#`.
pub open spec fn strip_hash(t: Seq<char>) -> Seq<char> {
    if t.len() > 0 && t[0] == '#' {
        t.drop_first()
    } else {
        t
    }
}

/// The tree after the action's effect.
pub open spec fn apply_action_spec(v: DomView, a: ActionSpec) -> DomView {
    match a {
        ActionSpec::ToggleVisibility(t) => toggle_visibility_spec(v, strip_hash(t)),
        ActionSpec::ToggleClass(t, c) => toggle_class_spec(v, strip_hash(t), c),
        ActionSpec::TabSwitch(show, hides) => hide_all_spec(set_visibility_spec(v, show, true), hides),
        ActionSpec::FormSubmit(_) => v,
        ActionSpec::Navigate(_) => v,
    }
}

/// `cleaned_style` computed.
fn clean_style(st: &str) -> (r: String)
    ensures
        r@ == cleaned_style(st@),
{
    let a = replace_str(st, "display: none", "");
    let b = replace_str(a.as_str(), "display:none", "");
    let v = chars_of(b.as_str());
    let (x, y) = trim_char_range(&v, 0, v.len(), ';');
    proof {
        assert(v@.subrange(0, v@.len() as int) =~= v@);
    }
    let (p, q) = trim_range(&v, x, y);
    proof {
        reveal_strlit("");
        assert(""@ =~= Seq::<char>::empty());
    }
    string_of_range(&v, p, q)
}

/// Shows an element: drops `hidden` and cleans `display: none` from the style.
fn show_element(node: &mut DomNode)
    ensures
        view_attrs(final(node).attributes@) == shown_attrs(view_attrs(old(node).attributes@)),
        final(node).tag == old(node).tag,
        final(node).text == old(node).text,
        final(node).children == old(node).children,
        final(node).node_type == old(node).node_type,
{
    node.remove_attr("hidden");
    let cleaned = match node.get_attr("style") {
        Some(st) => Some(clean_style(st)),
        None => None,
    };
    if let Some(c) = cleaned {
        node.set_attr("style", c.as_str());
    }
}

fn style_value(node: &DomNode) -> (r: String)
    ensures
        r@ == style_of(view_attrs(node.attributes@)),
{
    match node.get_attr("style") {
        Some(st) => crate::text::to_owned(st),
        None => String::new(),
    }
}

fn node_with_children(node: &DomNode, children: Vec<DomNode>) -> (r: DomNode)
    ensures
        r.tag@ == node.tag@,
        view_attrs(r.attributes@) == view_attrs(node.attributes@),
        r.text@ == node.text@,
        r.children == children,
        r.node_type == node.node_type,
{
    let mut attrs: Vec<(String, String)> = Vec::new();
    let mut i: usize = 0;
    while i < node.attributes.len()
        invariant
            i <= node.attributes@.len(),
            view_attrs(attrs@) == view_attrs(node.attributes@).take(i as int),
        decreases node.attributes.len() - i,
    {
        let k = crate::text::copy_string(&node.attributes[i].0);
        let v = crate::text::copy_string(&node.attributes[i].1);
        let ghost prev = attrs@;
        attrs.push((k, v));
        proof {
            assert(view_attrs(attrs@) =~= view_attrs(prev).push((k@, v@)));
            assert(view_attrs(node.attributes@).take(i + 1) =~= view_attrs(node.attributes@).take(
                i as int,
            ).push((k@, v@)));
        }
        i = i + 1;
    }
    proof {
        assert(view_attrs(node.attributes@).take(i as int) =~= view_attrs(node.attributes@));
    }
    DomNode {
        tag: crate::text::copy_string(&node.tag),
        attributes: attrs,
        text: crate::text::copy_string(&node.text),
        children,
        node_type: node.node_type,
    }
}

fn is_target_exec(node: &DomNode, target_id: &str) -> (b: bool)
    ensures
        b == is_target(node.dv(), target_id@),
{
    if node.node_type != NodeType::Element {
        return false;
    }
    match node.get_attr("id") {
        Some(i) => crate::text::str_eq(i, target_id),
        None => false,
    }
}

/// `toggle_element_visibility`: toggles the display of the element with id `target_id`.
fn toggle_element_visibility(node: &DomNode, target_id: &str) -> (r: DomNode)
    ensures
        r.dv() == toggle_visibility_spec(node.dv(), target_id@),
    decreases node,
{
    if is_target_exec(node, target_id) {
        let mut result = node.duplicate();
        let hidden = match result.get_attr("style") {
            Some(st) => crate::text::contains_str(st, "display: none") || crate::text::contains_str(
                st,
                "display:none",
            ),
            None => false,
        } || result.has_attr("hidden");
        if hidden {
            show_element(&mut result);
        } else {
            let current = style_value(&result);
            if current.as_str().is_empty() {
                result.set_attr("style", "display: none");
            } else {
                let mut s = current;
                push_str(&mut s, "; display: none");
                result.set_attr("style", s.as_str());
            }
        }
        proof {
            assert(result.dv().children =~= node.dv().children);
        }
        return result;
    }
    let mut kids: Vec<DomNode> = Vec::new();
    let mut i: usize = 0;
    while i < node.children.len()
        invariant
            i <= node.children@.len(),
            kids@.len() == i,
            forall|m: int|
                0 <= m < i ==> kids@[m].dv() == toggle_visibility_spec(
                    node.children@[m].dv(),
                    target_id@,
                ),
        decreases node.children.len() - i,
    {
        kids.push(toggle_element_visibility(&node.children[i], target_id));
        i = i + 1;
    }
    let r = node_with_children(node, kids);
    proof {
        crate::dom::lemma_dv_children(node);
        assert(r.dv().children =~= toggle_visibility_spec(node.dv(), target_id@).children);
    }
    r
}

/// `set_element_visibility`: shows or hides the element with id `target_id`.
#[verifier::rlimit(40)]
fn set_element_visibility(node: &DomNode, target_id: &str, visible: bool) -> (r: DomNode)
    ensures
        r.dv() == set_visibility_spec(node.dv(), target_id@, visible),
    decreases node,
{
    if is_target_exec(node, target_id) {
        let mut result = node.duplicate();
        if visible {
            show_element(&mut result);
        } else {
            let current = style_value(&result);
            if current.as_str().is_empty() {
                result.set_attr("style", "display: none");
            } else if !crate::text::contains_str(current.as_str(), "display: none")
                && !crate::text::contains_str(current.as_str(), "display:none") {
                let mut s = current;
                push_str(&mut s, "; display: none");
                result.set_attr("style", s.as_str());
            }
        }
        proof {
            assert(result.dv().children =~= node.dv().children);
        }
        return result;
    }
    let mut kids: Vec<DomNode> = Vec::new();
    let mut i: usize = 0;
    while i < node.children.len()
        invariant
            i <= node.children@.len(),
            kids@.len() == i,
            forall|m: int|
                0 <= m < i ==> kids@[m].dv() == set_visibility_spec(
                    node.children@[m].dv(),
                    target_id@,
                    visible,
                ),
        decreases node.children.len() - i,
    {
        kids.push(set_element_visibility(&node.children[i], target_id, visible));
        i = i + 1;
    }
    let r = node_with_children(node, kids);
    proof {
        crate::dom::lemma_dv_children(node);
        assert(r.dv().children =~= set_visibility_spec(node.dv(), target_id@, visible).children);
    }
    r
}

proof fn lemma_filter_step(l: Seq<Seq<char>>, i: int, class: Seq<char>)
    requires
        0 <= i < l.len(),
    ensures
        l.take(i + 1).filter(other_than(class)) == if l[i] != class {
            l.take(i).filter(other_than(class)).push(l[i])
        } else {
            l.take(i).filter(other_than(class))
        },
{
    reveal_with_fuel(Seq::<_>::filter, 1);
    assert(l.take(i + 1).drop_last() =~= l.take(i));
}

/// The new `class` attribute value after toggling `class`.
fn toggled_class_value(current: &str, class: &str) -> (r: String)
    ensures
        ({
            let list = words(current@);
            r@ == if list.contains(class@) {
                join(list.filter(other_than(class@)), seq![' '])
            } else if current@.len() == 0 {
                class@
            } else {
                current@ + seq![' '] + class@
            }
        }),
{
    let list = split_whitespace(current);
    let ghost l = view_strings(list@);
    let mut found = false;
    let mut i: usize = 0;
    while i < list.len()
        invariant
            l == view_strings(list@),
            i <= list@.len(),
            found == (exists|k: int| 0 <= k < i && l[k] == class@),
        decreases list.len() - i,
    {
        proof {
            assert(l[i as int] == list@[i as int]@);
        }
        if crate::text::str_eq(list[i].as_str(), class) {
            found = true;
        }
        i = i + 1;
    }
    proof {
        if found {
            let k = choose|k: int| 0 <= k < i && l[k] == class@;
            assert(l.contains(class@));
        } else {
            assert forall|k: int| 0 <= k < l.len() implies l[k] != class@ by {}
        }
    }
    if found {
        let mut kept: Vec<String> = Vec::new();
        let mut j: usize = 0;
        while j < list.len()
            invariant
                l == view_strings(list@),
                j <= list@.len(),
                view_strings(kept@) == l.take(j as int).filter(other_than(class@)),
            decreases list.len() - j,
        {
            proof {
                lemma_filter_step(l, j as int, class@);
                assert(l[j as int] == list@[j as int]@);
            }
            if !crate::text::str_eq(list[j].as_str(), class) {
                let w = crate::text::copy_string(&list[j]);
                let ghost prev = kept@;
                kept.push(w);
                proof {
                    assert(view_strings(kept@) =~= view_strings(prev).push(w@));
                }
            }
            j = j + 1;
        }
        proof {
            assert(l.take(j as int) =~= l);
            reveal_strlit(" ");
            assert(" "@ =~= seq![' ']);
        }
        crate::text::join_strings(&kept, " ")
    } else if current.is_empty() {
        crate::text::to_owned(class)
    } else {
        let mut r = crate::text::to_owned(current);
        push_char(&mut r, ' ');
        push_str(&mut r, class);
        proof {
            assert(current@.push(' ') =~= current@ + seq![' ']);
        }
        r
    }
}

/// `toggle_element_class`: toggles `class` on the element with id `target_id`.
#[verifier::rlimit(40)]
fn toggle_element_class(node: &DomNode, target_id: &str, class: &str) -> (r: DomNode)
    ensures
        r.dv() == toggle_class_spec(node.dv(), target_id@, class@),
    decreases node,
{
    if is_target_exec(node, target_id) {
        let mut result = node.duplicate();
        let current = match result.get_attr("class") {
            Some(c) => crate::text::to_owned(c),
            None => String::new(),
        };
        let value = toggled_class_value(current.as_str(), class);
        result.set_attr("class", value.as_str());
        proof {
            reveal_strlit(" ");
            assert(result.dv().children =~= node.dv().children);
        }
        return result;
    }
    let mut kids: Vec<DomNode> = Vec::new();
    let mut i: usize = 0;
    while i < node.children.len()
        invariant
            i <= node.children@.len(),
            kids@.len() == i,
            forall|m: int|
                0 <= m < i ==> kids@[m].dv() == toggle_class_spec(
                    node.children@[m].dv(),
                    target_id@,
                    class@,
                ),
        decreases node.children.len() - i,
    {
        kids.push(toggle_element_class(&node.children[i], target_id, class));
        i = i + 1;
    }
    let r = node_with_children(node, kids);
    proof {
        crate::dom::lemma_dv_children(node);
        assert(r.dv().children =~= toggle_class_spec(node.dv(), target_id@, class@).children);
    }
    r
}

fn strip_hash_exec(t: &str) -> (r: String)
    ensures
        r@ == strip_hash(t@),
{
    let v = chars_of(t);
    if v.len() > 0 && v[0] == '#' {
        proof {
            assert(v@.subrange(1, v@.len() as int) =~= v@.drop_first());
        }
        string_of_range(&v, 1, v.len())
    } else {
        crate::text::to_owned(t)
    }
}

/// Applies an inferred action to a tree and returns the modified tree; the
/// input is left as it is. Form submission and navigation leave the tree as
/// it is: the session performs them.
#[verifier::rlimit(40)]
pub fn apply_action(dom: &DomNode, action: &JsAction) -> (r: DomNode)
    ensures
        r.dv() == apply_action_spec(dom.dv(), action.av()),
{
    match action {
        JsAction::ToggleVisibility { target } => {
            let id = strip_hash_exec(target.as_str());
            toggle_element_visibility(dom, id.as_str())
        },
        JsAction::ToggleClass { target, class } => {
            let id = strip_hash_exec(target.as_str());
            toggle_element_class(dom, id.as_str(), class.as_str())
        },
        JsAction::TabSwitch { show_target, hide_targets } => {
            let mut result = set_element_visibility(dom, show_target.as_str(), true);
            let ghost shown = result.dv();
            let ghost hs = hide_targets@.map_values(|h: String| h@);
            let mut i: usize = 0;
            while i < hide_targets.len()
                invariant
                    i <= hide_targets@.len(),
                    hs == hide_targets@.map_values(|h: String| h@),
                    result.dv() == hide_all_spec(shown, hs.take(i as int)),
                decreases hide_targets.len() - i,
            {
                proof {
                    assert(hs.take(i + 1).drop_last() =~= hs.take(i as int));
                    assert(hs[i as int] == hide_targets@[i as int]@);
                    assert(hs.take(i + 1).last() == hs[i as int]);
                }
                let next = set_element_visibility(&result, hide_targets[i].as_str(), false);
                result = next;
                i = i + 1;
            }
            proof {
                assert(hs.take(i as int) =~= hs);
            }
            result
        },
        JsAction::FormSubmit { .. } => dom.duplicate(),
        JsAction::Navigate { .. } => dom.duplicate(),
    }
}

// ---------------------------------------------------------------------------
// Tab groups
// ---------------------------------------------------------------------------

/// A group of tabs (`role="tablist"`) with their panels.
#[derive(Debug, Clone)]
pub struct TabGroup {
    pub tabs: Vec<TabInfo>,
}

#[derive(Debug, Clone)]
pub struct TabInfo {
    pub id: String,
    pub label: String,
    pub panel_id: String,
    pub selected: bool,
}

pub struct TabSpec {
    pub id: Seq<char>,
    pub label: Seq<char>,
    pub panel_id: Seq<char>,
    pub selected: bool,
}

impl TabInfo {
    pub open spec fn tv(&self) -> TabSpec {
        TabSpec { id: self.id@, label: self.label@, panel_id: self.panel_id@, selected: self.selected }
    }
}

impl TabGroup {
    pub open spec fn gv(&self) -> Seq<TabSpec> {
        self.tabs@.map_values(|t: TabInfo| t.tv())
    }
}

pub open spec fn group_views(g: Seq<TabGroup>) -> Seq<Seq<TabSpec>> {
    g.map_values(|x: TabGroup| x.gv())
}

pub open spec fn attr_or_empty(v: DomView, name: Seq<char>) -> Seq<char> {
    match attr_is(v, name) {
        Some(x) => x,
        None => Seq::empty(),
    }
}

/// The tab described by a `role="tab"` element.
pub open spec fn tab_spec(c: DomView) -> TabSpec {
    TabSpec {
        id: attr_or_empty(c, "id"@),
        label: crate::dom::text_content_spec(c),
        panel_id: attr_or_empty(c, "aria-controls"@),
        selected: attr_is(c, "aria-selected"@) == Some("true"@),
    }
}

/// The tabs among the first `k` children.
pub open spec fn tabs_upto(cs: Seq<DomView>, k: int) -> Seq<TabSpec>
    decreases k,
{
    if k <= 0 || k > cs.len() {
        Seq::empty()
    } else if attr_is(cs[k - 1], "role"@) == Some("tab"@) {
        tabs_upto(cs, k - 1).push(tab_spec(cs[k - 1]))
    } else {
        tabs_upto(cs, k - 1)
    }
}

/// The tab groups of a subtree in document order: a `tablist` element with
/// at least one direct `tab` child forms a group.
pub open spec fn tab_groups_spec(v: DomView) -> Seq<Seq<TabSpec>>
    decreases v, 0int,
{
    let tabs = tabs_upto(v.children, v.children.len() as int);
    let own = if attr_is(v, "role"@) == Some("tablist"@) && tabs.len() > 0 {
        seq![tabs]
    } else {
        Seq::empty()
    };
    own + tab_groups_upto(v.children, v.children.len() as int)
}

pub open spec fn tab_groups_upto(cs: Seq<DomView>, k: int) -> Seq<Seq<TabSpec>>
    decreases cs, k,
{
    if k <= 0 || k > cs.len() {
        Seq::empty()
    } else {
        tab_groups_upto(cs, k - 1) + tab_groups_spec(cs[k - 1])
    }
}

fn attr_is_exec(node: &DomNode, name: &str, value: &str) -> (b: bool)
    ensures
        b == (attr_lookup(view_attrs(node.attributes@), name@) == Some(value@)),
{
    match node.get_attr(name) {
        Some(v) => crate::text::str_eq(v, value),
        None => false,
    }
}

fn attr_or_empty_exec(node: &DomNode, name: &str) -> (r: String)
    ensures
        r@ == attr_or_empty(node.dv(), name@),
{
    match node.get_attr(name) {
        Some(v) => crate::text::to_owned(v),
        None => String::new(),
    }
}

fn find_tab_groups(node: &DomNode, groups: &mut Vec<TabGroup>)
    ensures
        group_views(final(groups)@) == group_views(old(groups)@) + tab_groups_spec(node.dv()),
    decreases node,
{
    let ghost v = node.dv();
    let ghost g0 = group_views(groups@);
    let ghost cs = v.children;
    proof {
        crate::dom::lemma_dv_children(node);
        assert(v.attrs == view_attrs(node.attributes@));
    }
    let ghost tabs_spec = tabs_upto(cs, cs.len() as int);
    let ghost own: Seq<Seq<TabSpec>> = if attr_is(v, "role"@) == Some("tablist"@)
        && tabs_spec.len() > 0 {
        seq![tabs_spec]
    } else {
        Seq::empty()
    };
    if attr_is_exec(node, "role", "tablist") {
        let mut tabs: Vec<TabInfo> = Vec::new();
        let mut i: usize = 0;
        while i < node.children.len()
            invariant
                cs == crate::dom::children_views(node.children@),
                i <= node.children@.len(),
                tabs@.map_values(|t: TabInfo| t.tv()) == tabs_upto(cs, i as int),
            decreases node.children.len() - i,
        {
            let child = &node.children[i];
            proof {
                assert(cs[i as int] == child.dv());
                assert(child.dv().attrs == view_attrs(child.attributes@));
            }
            if attr_is_exec(child, "role", "tab") {
                let info = TabInfo {
                    id: attr_or_empty_exec(child, "id"),
                    label: child.text_content(),
                    panel_id: attr_or_empty_exec(child, "aria-controls"),
                    selected: attr_is_exec(child, "aria-selected", "true"),
                };
                let ghost prev = tabs@;
                tabs.push(info);
                proof {
                    assert(tabs@.map_values(|t: TabInfo| t.tv()) =~= prev.map_values(
                        |t: TabInfo| t.tv(),
                    ).push(tab_spec(cs[i as int])));
                }
            }
            i = i + 1;
        }
        if tabs.len() > 0 {
            let g = TabGroup { tabs };
            let ghost prev = groups@;
            groups.push(g);
            proof {
                assert(group_views(groups@) =~= group_views(prev).push(tabs_spec));
                assert(g0.push(tabs_spec) =~= g0 + own);
            }
        } else {
            proof {
                assert(g0 + own =~= g0);
            }
        }
    } else {
        proof {
            assert(g0 + own =~= g0);
        }
    }
    let mut j: usize = 0;
    while j < node.children.len()
        invariant
            cs == crate::dom::children_views(node.children@),
            j <= node.children@.len(),
            group_views(groups@) == g0 + own + tab_groups_upto(cs, j as int),
        decreases node.children.len() - j,
    {
        find_tab_groups(&node.children[j], groups);
        proof {
            assert(g0 + own + tab_groups_upto(cs, j as int) + tab_groups_spec(cs[j as int]) =~= g0
                + own + tab_groups_upto(cs, j + 1));
        }
        j = j + 1;
    }
    proof {
        assert(g0 + own + tab_groups_upto(cs, j as int) =~= g0 + tab_groups_spec(v));
    }
}

/// The tab groups of the page (`role="tablist"` with `role="tab"` children).
pub fn detect_tab_groups(dom: &DomNode) -> (r: Vec<TabGroup>)
    ensures
        group_views(r@) == tab_groups_spec(dom.dv()),
{
    let mut groups: Vec<TabGroup> = Vec::new();
    find_tab_groups(dom, &mut groups);
    proof {
        assert(group_views(Seq::<TabGroup>::empty()) + tab_groups_spec(dom.dv()) =~= tab_groups_spec(
            dom.dv(),
        ));
    }
    groups
}


// ---------------------------------------------------------------------------
// Facts about actions
// ---------------------------------------------------------------------------

/// Whether no element of a subtree has id `id`.
pub open spec fn absent_id(v: DomView, id: Seq<char>) -> bool
    decreases v,
{
    !is_target(v, id) && forall|i: int|
        0 <= i < v.children.len() ==> absent_id(#[trigger] v.children[i], id)
}

/// An action aimed at an id that no element carries leaves the tree as it
/// is.
pub proof fn law_absent_target_unchanged(v: DomView, id: Seq<char>, class: Seq<char>, visible: bool)
    requires
        absent_id(v, id),
    ensures
        toggle_visibility_spec(v, id) == v,
        set_visibility_spec(v, id, visible) == v,
        toggle_class_spec(v, id, class) == v,
    decreases v,
{
    assert forall|i: int| 0 <= i < v.children.len() implies toggle_visibility_spec(
        v.children[i],
        id,
    ) == v.children[i] && set_visibility_spec(v.children[i], id, visible) == v.children[i]
        && toggle_class_spec(v.children[i], id, class) == v.children[i] by {
        assert(absent_id(v.children[i], id));
        law_absent_target_unchanged(v.children[i], id, class, visible);
    }
    assert(toggle_visibility_spec(v, id).children =~= v.children);
    assert(set_visibility_spec(v, id, visible).children =~= v.children);
    assert(toggle_class_spec(v, id, class).children =~= v.children);
}

/// The passive actions (form submission, navigation) leave the tree as it is.
pub proof fn law_passive_actions_unchanged(v: DomView, s: Seq<char>)
    ensures
        apply_action_spec(v, ActionSpec::FormSubmit(s)) == v,
        apply_action_spec(v, ActionSpec::Navigate(s)) == v,
{
}

proof fn lemma_contains_at(h: Seq<char>, n: Seq<char>, k: int)
    requires
        0 <= k,
        crate::text::occurs_at(h, n, k),
    ensures
        contains(h, n),
{
    crate::text::lemma_find_from_bounds(h, n, 0);
}

proof fn lemma_hidden_set_idem(a: Attrs)
    ensures
        hidden_set_attrs(hidden_set_attrs(a)) == hidden_set_attrs(a),
        attr_lookup(hidden_set_attrs(a), "id"@) == attr_lookup(a, "id"@),
{
    reveal_strlit("display: none");
    reveal_strlit("; display: none");
    reveal_strlit("style");
    reveal_strlit("id");
    let dn = "display: none"@;
    let cur = style_of(a);
    assert("id"@.len() != "style"@.len());
    crate::dom::law_set_keeps_others(a, "style"@, dn, "id"@);
    if cur.len() == 0 {
        let a1 = attrs_insert(a, "style"@, dn);
        crate::dom::law_get_after_set(a, "style"@, dn);
        assert(dn.subrange(0, dn.len() as int) =~= dn);
        lemma_contains_at(dn, dn, 0);
    } else if !contains(cur, dn) && !contains(cur, "display:none"@) {
        let nv = cur + "; display: none"@;
        crate::dom::law_get_after_set(a, "style"@, nv);
        crate::dom::law_set_keeps_others(a, "style"@, nv, "id"@);
        let k: int = cur.len() as int + 2;
        assert(nv.subrange(k, k + dn.len()) =~= dn);
        lemma_contains_at(nv, dn, k);
    }
}

proof fn lemma_hide_target(v: DomView, id: Seq<char>)
    requires
        is_target(v, id),
    ensures
        set_visibility_spec(set_visibility_spec(v, id, false), id, false) == set_visibility_spec(
            v,
            id,
            false,
        ),
{
    lemma_hidden_set_idem(v.attrs);
    let w = set_visibility_spec(v, id, false);
    assert(w == with_attrs(v, hidden_set_attrs(v.attrs)));
    assert(is_target(w, id));
}

proof fn lemma_hide_inner(v: DomView, id: Seq<char>)
    requires
        !is_target(v, id),
        forall|i: int|
            0 <= i < v.children.len() ==> set_visibility_spec(
                set_visibility_spec(#[trigger] v.children[i], id, false),
                id,
                false,
            ) == set_visibility_spec(v.children[i], id, false),
    ensures
        set_visibility_spec(set_visibility_spec(v, id, false), id, false) == set_visibility_spec(
            v,
            id,
            false,
        ),
{
    let w = set_visibility_spec(v, id, false);
    assert(w.attrs == v.attrs && w.node_type == v.node_type);
    assert(!is_target(w, id));
    assert forall|i: int| 0 <= i < w.children.len() implies set_visibility_spec(
        #[trigger] w.children[i],
        id,
        false,
    ) == w.children[i] by {
        assert(w.children[i] == set_visibility_spec(v.children[i], id, false));
    }
    assert(set_visibility_spec(w, id, false).children =~= w.children);
}

#[verifier::opaque]
spec fn hide_stable(v: DomView, id: Seq<char>) -> bool {
    set_visibility_spec(set_visibility_spec(v, id, false), id, false) == set_visibility_spec(
        v,
        id,
        false,
    )
}

proof fn lemma_hide_stable(v: DomView, id: Seq<char>)
    ensures
        hide_stable(v, id),
    decreases v,
{
    if is_target(v, id) {
        lemma_hide_target(v, id);
        reveal(hide_stable);
    } else {
        assert forall|i: int| 0 <= i < v.children.len() implies hide_stable(
            #[trigger] v.children[i],
            id,
        ) by {
            lemma_hide_stable(v.children[i], id);
        }
        reveal(hide_stable);
        lemma_hide_inner(v, id);
    }
}

/// Hiding an element twice is hiding it once.
pub proof fn law_hide_idempotent(v: DomView, id: Seq<char>)
    ensures
        set_visibility_spec(set_visibility_spec(v, id, false), id, false) == set_visibility_spec(
            v,
            id,
            false,
        ),
{
    lemma_hide_stable(v, id);
    reveal(hide_stable);
}


// ---------------------------------------------------------------------------
// What an action may change
// ---------------------------------------------------------------------------

/// Whether `v` is an element whose id is one of `ids`.
pub open spec fn id_in(v: DomView, ids: Set<Seq<char>>) -> bool {
    v.node_type == NodeType::Element && (attr_lookup(v.attrs, "id"@) matches Some(i) && ids.contains(i))
}

/// Every attribute whose name is not in `names` reads the same in `a` and `b`.
pub open spec fn same_except(a: Attrs, b: Attrs, names: Set<Seq<char>>) -> bool {
    forall|n: Seq<char>| !names.contains(n) ==> #[trigger] attr_lookup(a, n) == attr_lookup(b, n)
}

/// `b` has `a`'s shape (tags, texts, node types, numbers of children, all
/// the way down); every node of `a` whose id is not in `ids` kept its
/// attributes, and on every node only attributes named in `names` read
/// differently.
pub open spec fn changed_only_at(
    a: DomView,
    b: DomView,
    ids: Set<Seq<char>>,
    names: Set<Seq<char>>,
) -> bool
    decreases a, 0int,
{
    &&& a.tag == b.tag
    &&& a.text == b.text
    &&& a.node_type == b.node_type
    &&& a.children.len() == b.children.len()
    &&& (!id_in(a, ids) ==> a.attrs == b.attrs)
    &&& same_except(a.attrs, b.attrs, names)
    &&& changed_upto(a.children, b.children, a.children.len() as int, ids, names)
}

pub open spec fn changed_upto(
    xs: Seq<DomView>,
    ys: Seq<DomView>,
    k: int,
    ids: Set<Seq<char>>,
    names: Set<Seq<char>>,
) -> bool
    decreases xs, k,
{
    if k <= 0 || k > xs.len() {
        true
    } else {
        changed_upto(xs, ys, k - 1, ids, names) && changed_only_at(xs[k - 1], ys[k - 1], ids, names)
    }
}

proof fn lemma_upto_from_forall(
    xs: Seq<DomView>,
    ys: Seq<DomView>,
    k: int,
    ids: Set<Seq<char>>,
    names: Set<Seq<char>>,
)
    requires
        0 <= k <= xs.len(),
        forall|i: int| 0 <= i < k ==> changed_only_at(#[trigger] xs[i], ys[i], ids, names),
    ensures
        changed_upto(xs, ys, k, ids, names),
    decreases k,
{
    if k > 0 {
        lemma_upto_from_forall(xs, ys, k - 1, ids, names);
    }
}

proof fn lemma_upto_to_forall(
    xs: Seq<DomView>,
    ys: Seq<DomView>,
    k: int,
    ids: Set<Seq<char>>,
    names: Set<Seq<char>>,
)
    requires
        0 <= k <= xs.len(),
        changed_upto(xs, ys, k, ids, names),
    ensures
        forall|i: int| 0 <= i < k ==> changed_only_at(#[trigger] xs[i], ys[i], ids, names),
    decreases k,
{
    if k > 0 {
        lemma_upto_to_forall(xs, ys, k - 1, ids, names);
    }
}

proof fn lemma_changed_refl(a: DomView, ids: Set<Seq<char>>, names: Set<Seq<char>>)
    ensures
        changed_only_at(a, a, ids, names),
    decreases a,
{
    assert forall|i: int| 0 <= i < a.children.len() implies changed_only_at(
        #[trigger] a.children[i],
        a.children[i],
        ids,
        names,
    ) by {
        lemma_changed_refl(a.children[i], ids, names);
    }
    lemma_upto_from_forall(a.children, a.children, a.children.len() as int, ids, names);
}

proof fn lemma_changed_trans(
    a: DomView,
    b: DomView,
    c: DomView,
    s: Set<Seq<char>>,
    t: Set<Seq<char>>,
    names: Set<Seq<char>>,
)
    requires
        changed_only_at(a, b, s, names),
        changed_only_at(b, c, t, names),
    ensures
        changed_only_at(a, c, s.union(t), names),
    decreases a,
{
    lemma_upto_to_forall(a.children, b.children, a.children.len() as int, s, names);
    lemma_upto_to_forall(b.children, c.children, b.children.len() as int, t, names);
    assert forall|i: int| 0 <= i < a.children.len() implies changed_only_at(
        #[trigger] a.children[i],
        c.children[i],
        s.union(t),
        names,
    ) by {
        lemma_changed_trans(a.children[i], b.children[i], c.children[i], s, t, names);
    }
    lemma_upto_from_forall(a.children, c.children, a.children.len() as int, s.union(t), names);
    assert forall|n: Seq<char>| !names.contains(n) implies #[trigger] attr_lookup(a.attrs, n)
        == attr_lookup(c.attrs, n) by {
        assert(attr_lookup(a.attrs, n) == attr_lookup(b.attrs, n));
        assert(attr_lookup(b.attrs, n) == attr_lookup(c.attrs, n));
    }
    if !id_in(a, s.union(t)) {
        assert(!id_in(a, s));
        assert(a.attrs == b.attrs);
        assert(!id_in(b, t));
    }
}

/// The names a visibility change may touch.
pub open spec fn visibility_names() -> Set<Seq<char>> {
    set!["style"@, "hidden"@]
}

proof fn lemma_visibility_attrs_keep(a: Attrs)
    ensures
        same_except(a, toggled_attrs(a), visibility_names()),
        same_except(a, shown_attrs(a), visibility_names()),
        same_except(a, hidden_set_attrs(a), visibility_names()),
{
    let names = visibility_names();
    assert forall|n: Seq<char>| !names.contains(n) implies #[trigger] attr_lookup(a, n) == attr_lookup(
        shown_attrs(a),
        n,
    ) by {
        assert(n != "style"@ && n != "hidden"@);
        let a1 = attrs_remove(a, "hidden"@);
        law_remove_keeps_others(a, "hidden"@, n);
        match attr_lookup(a1, "style"@) {
            Some(st) => law_set_keeps_others(a1, "style"@, cleaned_style(st), n),
            None => {},
        }
    }
    assert forall|n: Seq<char>| !names.contains(n) implies #[trigger] attr_lookup(a, n) == attr_lookup(
        hidden_set_attrs(a),
        n,
    ) by {
        assert(n != "style"@);
        let cur = style_of(a);
        law_set_keeps_others(a, "style"@, "display: none"@, n);
        law_set_keeps_others(a, "style"@, cur + "; display: none"@, n);
    }
    assert forall|n: Seq<char>| !names.contains(n) implies #[trigger] attr_lookup(a, n) == attr_lookup(
        toggled_attrs(a),
        n,
    ) by {
        assert(n != "style"@);
        law_set_keeps_others(a, "style"@, style_hidden(style_of(a)), n);
        assert(attr_lookup(a, n) == attr_lookup(shown_attrs(a), n));
    }
}

proof fn lemma_class_attrs_keep(a: Attrs, class: Seq<char>)
    ensures
        same_except(a, class_toggled_attrs(a, class), set!["class"@]),
{
    assert forall|n: Seq<char>| !set!["class"@].contains(n) implies #[trigger] attr_lookup(a, n)
        == attr_lookup(class_toggled_attrs(a, class), n) by {
        assert(n != "class"@);
        let cur = match attr_lookup(a, "class"@) {
            Some(c) => c,
            None => Seq::<char>::empty(),
        };
        let list = words(cur);
        law_set_keeps_others(a, "class"@, join(list.filter(other_than(class)), seq![' ']), n);
        law_set_keeps_others(a, "class"@, class, n);
        law_set_keeps_others(a, "class"@, cur + seq![' '] + class, n);
    }
}

proof fn lemma_with_attrs_changes(v: DomView, a: Attrs, ids: Set<Seq<char>>, names: Set<Seq<char>>)
    requires
        id_in(v, ids),
        same_except(v.attrs, a, names),
    ensures
        changed_only_at(v, with_attrs(v, a), ids, names),
{
    lemma_changed_refl(v, ids, names);
    lemma_upto_to_forall(v.children, v.children, v.children.len() as int, ids, names);
    lemma_upto_from_forall(v.children, with_attrs(v, a).children, v.children.len() as int, ids, names);
}

proof fn lemma_to_set_drop_last(hides: Seq<Seq<char>>)
    requires
        hides.len() > 0,
    ensures
        hides.drop_last().to_set().union(set![hides.last()]) == hides.to_set(),
{
    assert forall|x: Seq<char>| hides.to_set().contains(x) implies hides.drop_last().to_set().union(
        set![hides.last()],
    ).contains(x) by {
        let j = choose|j: int| 0 <= j < hides.len() && hides[j] == x;
        if j < hides.len() - 1 {
            assert(hides.drop_last()[j] == x);
        }
    }
    assert forall|x: Seq<char>| hides.drop_last().to_set().union(set![hides.last()]).contains(x)
        implies hides.to_set().contains(x) by {
        if hides.drop_last().to_set().contains(x) {
            let j = choose|j: int| 0 <= j < hides.len() - 1 && hides.drop_last()[j] == x;
            assert(hides[j] == x);
        } else {
            assert(hides[hides.len() - 1] == x);
        }
    }
    assert(hides.drop_last().to_set().union(set![hides.last()]) =~= hides.to_set());
}

proof fn lemma_toggle_visibility_changes(v: DomView, id: Seq<char>)
    ensures
        changed_only_at(v, toggle_visibility_spec(v, id), set![id], visibility_names()),
    decreases v,
{
    let w = toggle_visibility_spec(v, id);
    if is_target(v, id) {
        assert(set![id].contains(id));
        lemma_visibility_attrs_keep(v.attrs);
        lemma_with_attrs_changes(v, toggled_attrs(v.attrs), set![id], visibility_names());
    } else {
        assert forall|i: int| 0 <= i < v.children.len() implies changed_only_at(
            #[trigger] v.children[i],
            w.children[i],
            set![id],
            visibility_names(),
        ) by {
            lemma_toggle_visibility_changes(v.children[i], id);
        }
        lemma_upto_from_forall(v.children, w.children, v.children.len() as int, set![id], visibility_names());
    }
}

#[verifier::spinoff_prover]
#[verifier::rlimit(60)]
proof fn lemma_set_visibility_changes(v: DomView, id: Seq<char>, visible: bool)
    ensures
        changed_only_at(v, set_visibility_spec(v, id, visible), set![id], visibility_names()),
    decreases v,
{
    let w = set_visibility_spec(v, id, visible);
    if is_target(v, id) {
        assert(set![id].contains(id));
        let na = if visible {
            shown_attrs(v.attrs)
        } else {
            hidden_set_attrs(v.attrs)
        };
        lemma_visibility_attrs_keep(v.attrs);
        lemma_with_attrs_changes(v, na, set![id], visibility_names());
    } else {
        assert forall|i: int| 0 <= i < v.children.len() implies changed_only_at(
            #[trigger] v.children[i],
            w.children[i],
            set![id],
            visibility_names(),
        ) by {
            lemma_set_visibility_changes(v.children[i], id, visible);
        }
        lemma_upto_from_forall(v.children, w.children, v.children.len() as int, set![id], visibility_names());
    }
}

proof fn lemma_toggle_class_changes(v: DomView, id: Seq<char>, class: Seq<char>)
    ensures
        changed_only_at(v, toggle_class_spec(v, id, class), set![id], set!["class"@]),
    decreases v,
{
    let w = toggle_class_spec(v, id, class);
    if is_target(v, id) {
        assert(set![id].contains(id));
        lemma_class_attrs_keep(v.attrs, class);
        lemma_with_attrs_changes(v, class_toggled_attrs(v.attrs, class), set![id], set!["class"@]);
    } else {
        assert forall|i: int| 0 <= i < v.children.len() implies changed_only_at(
            #[trigger] v.children[i],
            w.children[i],
            set![id],
            set!["class"@],
        ) by {
            lemma_toggle_class_changes(v.children[i], id, class);
        }
        lemma_upto_from_forall(v.children, w.children, v.children.len() as int, set![id], set!["class"@]);
    }
}

proof fn lemma_hide_all_changes(v: DomView, hides: Seq<Seq<char>>)
    ensures
        changed_only_at(v, hide_all_spec(v, hides), hides.to_set(), visibility_names()),
    decreases hides.len(),
{
    if hides.len() == 0 {
        lemma_changed_refl(v, hides.to_set(), visibility_names());
    } else {
        let prev = hide_all_spec(v, hides.drop_last());
        lemma_hide_all_changes(v, hides.drop_last());
        lemma_set_visibility_changes(prev, hides.last(), false);
        lemma_changed_trans(
            v,
            prev,
            hide_all_spec(v, hides),
            hides.drop_last().to_set(),
            set![hides.last()],
            visibility_names(),
        );
        lemma_to_set_drop_last(hides);
    }
}

/// The ids an action may touch: the target (without `#`) of a toggle, the
/// shown and hidden panels of a tab switch, none for a form submission or a
/// navigation.
pub open spec fn touched_ids(a: ActionSpec) -> Set<Seq<char>> {
    match a {
        ActionSpec::ToggleVisibility(t) => set![strip_hash(t)],
        ActionSpec::ToggleClass(t, _) => set![strip_hash(t)],
        ActionSpec::TabSwitch(show, hides) => set![show].union(hides.to_set()),
        ActionSpec::FormSubmit(_) => Set::empty(),
        ActionSpec::Navigate(_) => Set::empty(),
    }
}

/// The attribute names an action may touch: `style` and `hidden` for the
/// visibility actions, `class` for a class toggle, none for a form
/// submission or a navigation.
pub open spec fn touched_names(a: ActionSpec) -> Set<Seq<char>> {
    match a {
        ActionSpec::ToggleVisibility(_) => visibility_names(),
        ActionSpec::ToggleClass(_, _) => set!["class"@],
        ActionSpec::TabSwitch(_, _) => visibility_names(),
        ActionSpec::FormSubmit(_) => Set::empty(),
        ActionSpec::Navigate(_) => Set::empty(),
    }
}

/// An action keeps the tree's shape (tags, texts, node types, numbers of
/// children), changes the attributes only of elements whose id it targets,
/// and on those only the attributes it is about: `style` and `hidden` for
/// showing and hiding, `class` for a class toggle.
pub proof fn law_action_keeps_shape(v: DomView, a: ActionSpec)
    ensures
        changed_only_at(v, apply_action_spec(v, a), touched_ids(a), touched_names(a)),
{
    match a {
        ActionSpec::ToggleVisibility(t) => lemma_toggle_visibility_changes(v, strip_hash(t)),
        ActionSpec::ToggleClass(t, c) => lemma_toggle_class_changes(v, strip_hash(t), c),
        ActionSpec::TabSwitch(show, hides) => {
            let s1 = set_visibility_spec(v, show, true);
            lemma_set_visibility_changes(v, show, true);
            lemma_hide_all_changes(s1, hides);
            lemma_changed_trans(
                v,
                s1,
                hide_all_spec(s1, hides),
                set![show],
                hides.to_set(),
                visibility_names(),
            );
        },
        _ => lemma_changed_refl(v, Set::empty(), Set::empty()),
    }
}

// ---------------------------------------------------------------------------
// Toggling visibility twice
// ---------------------------------------------------------------------------

proof fn lemma_contains_sub(x: Seq<char>, lo: int, hi: int, n: Seq<char>)
    requires
        0 <= lo <= hi <= x.len(),
        contains(x.subrange(lo, hi), n),
    ensures
        contains(x, n),
{
    let s = x.subrange(lo, hi);
    lemma_find_from_bounds(s, n, 0);
    let k = find(s, n)->0;
    assert(x.subrange(lo + k, lo + k + n.len()) =~= s.subrange(k, k + n.len()));
    assert(occurs_at(x, n, lo + k));
    lemma_find_from_bounds(x, n, 0);
}

proof fn lemma_occurs_contains(x: Seq<char>, n: Seq<char>, k: int)
    requires
        occurs_at(x, n, k),
    ensures
        contains(x, n),
{
    lemma_find_from_bounds(x, n, 0);
}

proof fn lemma_trim_char_start_skip(s: Seq<char>, c: char)
    ensures
        trim_char_start(s, c).len() <= s.len(),
        trim_char_start(s, c) == s.skip(s.len() - trim_char_start(s, c).len()),
    decreases s.len(),
{
    if s.len() > 0 && s[0] == c {
        lemma_trim_char_start_skip(s.drop_first(), c);
        let r = trim_char_start(s.drop_first(), c);
        assert(s.drop_first().skip(s.drop_first().len() - r.len()) =~= s.skip(s.len() - r.len()));
    } else {
        assert(s.skip(0) =~= s);
    }
}

proof fn lemma_trim_char_end_take(s: Seq<char>, c: char)
    ensures
        trim_char_end(s, c).len() <= s.len(),
        trim_char_end(s, c) == s.take(trim_char_end(s, c).len() as int),
    decreases s.len(),
{
    if s.len() > 0 && s.last() == c {
        lemma_trim_char_end_take(s.drop_last(), c);
        let r = trim_char_end(s.drop_last(), c);
        assert(s.drop_last().take(r.len() as int) =~= s.take(r.len() as int));
    } else {
        assert(s.take(s.len() as int) =~= s);
    }
}

/// A pattern found in the cleaned style was already in the style with the
/// `display: none` pieces deleted.
proof fn lemma_cleaned_in_removed(r: Seq<char>, n: Seq<char>)
    requires
        contains(trim(trim_matches(r, ';')), n),
    ensures
        contains(r, n),
{
    let a = trim_char_start(r, ';');
    let b = trim_char_end(a, ';');
    let c = trim_start(b);
    let d = trim_end(c);
    lemma_trim_char_start_skip(r, ';');
    lemma_trim_char_end_take(a, ';');
    lemma_trim_start_props(b);
    lemma_trim_end_props(c);
    assert(d =~= c.subrange(0, d.len() as int));
    lemma_contains_sub(c, 0, d.len() as int, n);
    assert(c =~= b.subrange(b.len() - c.len(), b.len() as int));
    lemma_contains_sub(b, b.len() - c.len(), b.len() as int, n);
    assert(b =~= a.subrange(0, b.len() as int));
    lemma_contains_sub(a, 0, b.len() as int, n);
    assert(a =~= r.subrange(r.len() - a.len(), r.len() as int));
    lemma_contains_sub(r, r.len() - a.len(), r.len() as int, n);
}

/// Deleting a pattern that does not occur changes nothing.
proof fn lemma_replace_absent(s: Seq<char>, p: Seq<char>)
    requires
        p.len() > 0,
        !contains(s, p),
    ensures
        replace(s, p, Seq::empty()) == s,
    decreases s.len(),
{
    if s.len() > 0 {
        if starts_with(s, p) {
            assert(s.subrange(0, p.len() as int) =~= s.take(p.len() as int));
            lemma_occurs_contains(s, p, 0);
        }
        if contains(s.drop_first(), p) {
            assert(s.drop_first() =~= s.subrange(1, s.len() as int));
            lemma_contains_sub(s, 1, s.len() as int, p);
        }
        lemma_replace_absent(s.drop_first(), p);
        assert(seq![s[0]] + s.drop_first() =~= s);
    }
}

/// A pattern without `;` found in `x + y` where `x` has none of it and `y`
/// starts with `;` lies in `y`.
proof fn lemma_no_straddle(x: Seq<char>, y: Seq<char>, p: Seq<char>, k: int)
    requires
        !contains(x, p),
        y.len() > 0,
        y[0] == ';',
        forall|i: int| 0 <= i < p.len() ==> p[i] != ';',
        occurs_at(x + y, p, k),
    ensures
        k >= x.len(),
{
    if k < x.len() {
        if k + p.len() <= x.len() {
            assert(x.subrange(k, k + p.len()) =~= (x + y).subrange(k, k + p.len()));
            lemma_occurs_contains(x, p, k);
        } else {
            assert((x + y).subrange(k, k + p.len())[x.len() - k] == (x + y)[x.len() as int]);
        }
    }
}

/// Deleting a pattern without `;` from `x + y`, where `x` has none of it
/// and `y` starts with `;`, leaves `x` in front.
proof fn lemma_replace_prefix_clean(x: Seq<char>, y: Seq<char>, p: Seq<char>)
    requires
        p.len() > 0,
        !contains(x, p),
        y.len() > 0,
        y[0] == ';',
        forall|i: int| 0 <= i < p.len() ==> p[i] != ';',
    ensures
        replace(x + y, p, Seq::empty()) == x + replace(y, p, Seq::empty()),
    decreases x.len(),
{
    if x.len() > 0 {
        let s = x + y;
        if starts_with(s, p) {
            assert(s.subrange(0, p.len() as int) =~= s.take(p.len() as int));
            lemma_no_straddle(x, y, p, 0);
        }
        assert(s.drop_first() =~= x.drop_first() + y);
        if contains(x.drop_first(), p) {
            assert(x.drop_first() =~= x.subrange(1, x.len() as int));
            lemma_contains_sub(x, 1, x.len() as int, p);
        }
        lemma_replace_prefix_clean(x.drop_first(), y, p);
        assert(seq![x[0]] + (x.drop_first() + replace(y, p, Seq::empty())) =~= x + replace(
            y,
            p,
            Seq::empty(),
        ));
    } else {
        assert(x + y =~= y);
        assert(x + replace(y, p, Seq::empty()) =~= replace(y, p, Seq::empty()));
    }
}

/// A style from which deleting every `display: none` and then every
/// `display:none` leaves neither behind (deleting cannot make new ones).
pub open spec fn removal_clean(st: Seq<char>) -> bool {
    let r = replace(replace(st, "display: none"@, Seq::empty()), "display:none"@, Seq::empty());
    !contains(r, "display: none"@) && !contains(r, "display:none"@)
}

proof fn lemma_too_short(h: Seq<char>, n: Seq<char>)
    requires
        h.len() < n.len(),
    ensures
        !contains(h, n),
{
}

proof fn lemma_style_hidden_hides(c: Seq<char>)
    ensures
        contains(style_hidden(c), "display: none"@),
{
    let p = "display: none"@;
    if c.len() == 0 {
        assert(p.subrange(0, p.len() as int) =~= p);
        lemma_occurs_contains(p, p, 0);
    } else {
        let s = c + "; display: none"@;
        reveal_strlit("; display: none");
        reveal_strlit("display: none");
        let k = c.len() + 2int;
        assert(s.subrange(k, k + p.len()) =~= p);
        lemma_occurs_contains(s, p, k);
    }
}

/// Hiding a shown element writes a style from which the deletion is clean.
proof fn lemma_style_hidden_clean(cur: Seq<char>)
    requires
        !contains(cur, "display: none"@),
        !contains(cur, "display:none"@),
    ensures
        removal_clean(style_hidden(cur)),
{
    let p1 = "display: none"@;
    let p2 = "display:none"@;
    reveal_strlit("display: none");
    reveal_strlit("display:none");
    reveal_strlit("; display: none");
    let e = Seq::<char>::empty();
    if cur.len() == 0 {
        assert(p1.take(p1.len() as int) =~= p1);
        assert(starts_with(p1, p1));
        assert(p1.skip(p1.len() as int) =~= e);
        assert(replace(e, p1, e) == e);
        assert(replace(p1, p1, e) =~= e + replace(p1.skip(p1.len() as int), p1, e));
        assert(replace(p1, p1, e) =~= e);
        assert(replace(e, p2, e) == e);
        lemma_too_short(e, p1);
        lemma_too_short(e, p2);
    } else {
        let y = "; display: none"@;
        let y1 = y.drop_first();
        let y2 = y1.drop_first();
        assert(y2 =~= p1);
        assert(!starts_with(y, p1)) by {
            assert(y.take(p1.len() as int)[0] != p1[0]);
        }
        assert(!starts_with(y1, p1)) by {
            assert(y1.take(p1.len() as int)[0] != p1[0]);
        }
        assert(y2.take(p1.len() as int) =~= p1);
        assert(starts_with(y2, p1));
        assert(y2.skip(p1.len() as int) =~= e);
        assert(replace(e, p1, e) == e);
        assert(replace(y2, p1, e) =~= e + replace(y2.skip(p1.len() as int), p1, e));
        assert(replace(y2, p1, e) =~= e);
        assert(y[0] == ';' && y1[0] == ' ');
        assert(replace(y1, p1, e) =~= seq![y1[0]] + replace(y2, p1, e));
        assert(replace(y, p1, e) =~= seq![y[0]] + replace(y1, p1, e));
        assert(replace(y, p1, e) =~= seq![';', ' ']);
        lemma_replace_prefix_clean(cur, y, p1);
        let z = seq![';', ' '];
        lemma_too_short(z, p2);
        lemma_replace_absent(z, p2);
        lemma_replace_prefix_clean(cur, z, p2);
        let r = cur + z;
        assert(replace(replace(style_hidden(cur), p1, e), p2, e) == r);
        if contains(r, p1) {
            lemma_find_from_bounds(r, p1, 0);
            let k = find(r, p1)->0;
            lemma_no_straddle(cur, z, p1, k);
        }
        if contains(r, p2) {
            lemma_find_from_bounds(r, p2, 0);
            let k = find(r, p2)->0;
            lemma_no_straddle(cur, z, p2, k);
        }
    }
}

proof fn lemma_shown_not_hidden(a: Attrs)
    requires
        attr_lookup(a, "style"@) matches Some(st) ==> removal_clean(st),
    ensures
        !hidden_attrs(shown_attrs(a)),
        attr_lookup(shown_attrs(a), "id"@) == attr_lookup(a, "id"@),
{
    reveal_strlit("hidden");
    reveal_strlit("style");
    reveal_strlit("id");
    assert("hidden"@.len() != "style"@.len());
    assert("hidden"@.len() != "id"@.len());
    assert("id"@.len() != "style"@.len());
    let a1 = attrs_remove(a, "hidden"@);
    law_get_after_remove(a, "hidden"@);
    law_remove_keeps_others(a, "hidden"@, "style"@);
    law_remove_keeps_others(a, "hidden"@, "id"@);
    match attr_lookup(a1, "style"@) {
        Some(st) => {
            let c = cleaned_style(st);
            law_get_after_set(a1, "style"@, c);
            law_set_keeps_others(a1, "style"@, c, "hidden"@);
            law_set_keeps_others(a1, "style"@, c, "id"@);
            let r = replace(replace(st, "display: none"@, Seq::empty()), "display:none"@, Seq::empty());
            if contains(c, "display: none"@) {
                lemma_cleaned_in_removed(r, "display: none"@);
            }
            if contains(c, "display:none"@) {
                lemma_cleaned_in_removed(r, "display:none"@);
            }
        },
        None => {},
    }
}

proof fn lemma_hide_hides(a: Attrs)
    ensures
        hidden_attrs(attrs_insert(a, "style"@, style_hidden(style_of(a)))),
        attr_lookup(attrs_insert(a, "style"@, style_hidden(style_of(a))), "id"@) == attr_lookup(a, "id"@),
{
    reveal_strlit("style");
    reveal_strlit("id");
    assert("id"@.len() != "style"@.len());
    law_get_after_set(a, "style"@, style_hidden(style_of(a)));
    law_set_keeps_others(a, "style"@, style_hidden(style_of(a)), "id"@);
    lemma_style_hidden_hides(style_of(a));
}

/// Toggling an element's attributes twice gives back whether it is hidden;
/// its id never changes.
proof fn lemma_toggle_twice_attrs(a: Attrs)
    requires
        attr_lookup(a, "style"@) matches Some(st) ==> removal_clean(st),
    ensures
        attr_lookup(toggled_attrs(a), "id"@) == attr_lookup(a, "id"@),
        hidden_attrs(toggled_attrs(toggled_attrs(a))) == hidden_attrs(a),
{
    if hidden_attrs(a) {
        lemma_shown_not_hidden(a);
        lemma_hide_hides(shown_attrs(a));
    } else {
        let cur = style_of(a);
        reveal_strlit("style");
        reveal_strlit("hidden");
        lemma_hide_hides(a);
        let t1 = attrs_insert(a, "style"@, style_hidden(cur));
        law_get_after_set(a, "style"@, style_hidden(cur));
        if attr_lookup(a, "style"@) is None {
            reveal_strlit("display: none");
            reveal_strlit("display:none");
            lemma_too_short(cur, "display: none"@);
            lemma_too_short(cur, "display:none"@);
        }
        lemma_style_hidden_clean(cur);
        lemma_shown_not_hidden(t1);
    }
}

/// Every style in the tree is one from which deleting `display: none` is
/// clean (see `removal_clean`).
pub open spec fn styles_clean(v: DomView) -> bool
    decreases v, 0int,
{
    &&& (attr_lookup(v.attrs, "style"@) matches Some(st) ==> removal_clean(st))
    &&& styles_clean_upto(v.children, v.children.len() as int)
}

pub open spec fn styles_clean_upto(cs: Seq<DomView>, k: int) -> bool
    decreases cs, k,
{
    if k <= 0 || k > cs.len() {
        true
    } else {
        styles_clean_upto(cs, k - 1) && styles_clean(cs[k - 1])
    }
}

/// `b` has `a`'s shape and every node of `b` is hidden exactly when its
/// counterpart in `a` is.
pub open spec fn same_visibility(a: DomView, b: DomView) -> bool
    decreases a, 0int,
{
    &&& a.tag == b.tag
    &&& a.text == b.text
    &&& a.node_type == b.node_type
    &&& a.children.len() == b.children.len()
    &&& hidden_attrs(a.attrs) == hidden_attrs(b.attrs)
    &&& same_visibility_upto(a.children, b.children, a.children.len() as int)
}

pub open spec fn same_visibility_upto(xs: Seq<DomView>, ys: Seq<DomView>, k: int) -> bool
    decreases xs, k,
{
    if k <= 0 || k > xs.len() {
        true
    } else {
        same_visibility_upto(xs, ys, k - 1) && same_visibility(xs[k - 1], ys[k - 1])
    }
}

proof fn lemma_clean_upto_forall(cs: Seq<DomView>, k: int)
    requires
        0 <= k <= cs.len(),
        styles_clean_upto(cs, k),
    ensures
        forall|i: int| 0 <= i < k ==> styles_clean(#[trigger] cs[i]),
    decreases k,
{
    if k > 0 {
        lemma_clean_upto_forall(cs, k - 1);
    }
}

proof fn lemma_vis_upto_from_forall(xs: Seq<DomView>, ys: Seq<DomView>, k: int)
    requires
        0 <= k <= xs.len(),
        forall|i: int| 0 <= i < k ==> same_visibility(#[trigger] xs[i], ys[i]),
    ensures
        same_visibility_upto(xs, ys, k),
    decreases k,
{
    if k > 0 {
        lemma_vis_upto_from_forall(xs, ys, k - 1);
    }
}

proof fn lemma_vis_refl(a: DomView)
    ensures
        same_visibility(a, a),
    decreases a,
{
    assert forall|i: int| 0 <= i < a.children.len() implies same_visibility(
        #[trigger] a.children[i],
        a.children[i],
    ) by {
        lemma_vis_refl(a.children[i]);
    }
    lemma_vis_upto_from_forall(a.children, a.children, a.children.len() as int);
}

proof fn lemma_toggle_twice_tree(v: DomView, id: Seq<char>)
    requires
        styles_clean(v),
    ensures
        same_visibility(v, toggle_visibility_spec(toggle_visibility_spec(v, id), id)),
    decreases v,
{
    let w = toggle_visibility_spec(v, id);
    let w2 = toggle_visibility_spec(w, id);
    if is_target(v, id) {
        lemma_toggle_twice_attrs(v.attrs);
        assert(is_target(w, id));
        lemma_vis_refl(v);
        assert(w2.children == v.children);
    } else {
        assert(!is_target(w, id));
        lemma_clean_upto_forall(v.children, v.children.len() as int);
        assert forall|i: int| 0 <= i < v.children.len() implies same_visibility(
            #[trigger] v.children[i],
            w2.children[i],
        ) by {
            lemma_toggle_twice_tree(v.children[i], id);
        }
        lemma_vis_upto_from_forall(v.children, w2.children, v.children.len() as int);
    }
}

/// Toggling an element's visibility twice keeps the tree's shape and gives
/// every element back whether it is hidden, for a tree whose styles lose
/// every `display: none` when those are deleted (see `removal_clean`).
pub proof fn law_toggle_visibility_twice(v: DomView, target: Seq<char>)
    requires
        styles_clean(v),
    ensures
        same_visibility(
            v,
            apply_action_spec(
                apply_action_spec(v, ActionSpec::ToggleVisibility(target)),
                ActionSpec::ToggleVisibility(target),
            ),
        ),
{
    lemma_toggle_twice_tree(v, strip_hash(target));
}

// ---------------------------------------------------------------------------
// Toggling a class twice
// ---------------------------------------------------------------------------

/// The class names an element carries.
pub open spec fn class_tokens(a: Attrs) -> Set<Seq<char>> {
    words(
        match attr_lookup(a, "class"@) {
            Some(c) => c,
            None => Seq::empty(),
        },
    ).to_set()
}

proof fn lemma_filter_all(l: Seq<Seq<char>>, p: spec_fn(Seq<char>) -> bool)
    requires
        forall|i: int| 0 <= i < l.len() ==> p(#[trigger] l[i]),
    ensures
        l.filter(p) == l,
    decreases l.len(),
{
    reveal(Seq::filter);
    if l.len() > 0 {
        lemma_filter_all(l.drop_last(), p);
        assert(l.drop_last().push(l.last()) =~= l);
    }
}

proof fn lemma_filter_push_dropped(l: Seq<Seq<char>>, c: Seq<char>)
    ensures
        l.push(c).filter(other_than(c)) == l.filter(other_than(c)),
{
    reveal(Seq::filter);
    assert(l.push(c).drop_last() =~= l);
}

proof fn lemma_filter_words(l: Seq<Seq<char>>, c: Seq<char>)
    requires
        forall|i: int| 0 <= i < l.len() ==> is_word(#[trigger] l[i]),
    ensures
        forall|i: int| 0 <= i < l.filter(other_than(c)).len() ==> is_word(
            #[trigger] l.filter(other_than(c))[i],
        ),
        !l.filter(other_than(c)).contains(c),
{
    let f = l.filter(other_than(c));
    assert forall|i: int| 0 <= i < f.len() implies is_word(#[trigger] f[i]) by {
        assert(f.contains(f[i]));
        l.lemma_filter_contains_rev(other_than(c), f[i]);
    }
    if f.contains(c) {
        let i = choose|i: int| 0 <= i < f.len() && f[i] == c;
        l.lemma_filter_pred(other_than(c), i);
    }
}

/// Toggling a class name twice on an element gives back the set of class
/// names it carries; its id never changes.
proof fn lemma_toggle_class_twice_attrs(a: Attrs, c: Seq<char>)
    requires
        is_word(c),
    ensures
        attr_lookup(class_toggled_attrs(a, c), "id"@) == attr_lookup(a, "id"@),
        class_tokens(class_toggled_attrs(class_toggled_attrs(a, c), c)) == class_tokens(a),
{
    reveal_strlit("class");
    reveal_strlit("id");
    assert("id"@.len() != "class"@.len());
    let cur = match attr_lookup(a, "class"@) {
        Some(x) => x,
        None => Seq::<char>::empty(),
    };
    let l = words(cur);
    lemma_words_are_words(cur);
    let t1 = class_toggled_attrs(a, c);
    let c1 = if l.contains(c) {
        join(l.filter(other_than(c)), seq![' '])
    } else if cur.len() == 0 {
        c
    } else {
        cur + seq![' '] + c
    };
    assert(t1 == attrs_insert(a, "class"@, c1));
    law_get_after_set(a, "class"@, c1);
    law_set_keeps_others(a, "class"@, c1, "id"@);
    let l1 = words(c1);
    let t2 = class_toggled_attrs(t1, c);
    let c2 = if l1.contains(c) {
        join(l1.filter(other_than(c)), seq![' '])
    } else if c1.len() == 0 {
        c
    } else {
        c1 + seq![' '] + c
    };
    assert(t2 == attrs_insert(t1, "class"@, c2));
    law_get_after_set(t1, "class"@, c2);
    if l.contains(c) {
        let f = l.filter(other_than(c));
        lemma_filter_words(l, c);
        lemma_words_join(f);
        assert(l1 == f);
        if c1.len() == 0 {
            lemma_words_single(c);
            assert(f =~= Seq::<Seq<char>>::empty());
            assert(!l1.contains(c));
            assert(c2 == c);
            assert(words(c2) == seq![c]);
            assert forall|x: Seq<char>| l.to_set().contains(x) implies seq![c].to_set().contains(x) by {
                let i = choose|i: int| 0 <= i < l.len() && l[i] == x;
                if x != c {
                    l.lemma_filter_contains(other_than(c), i);
                }
                assert(seq![c][0] == c);
            }
            assert forall|x: Seq<char>| seq![c].to_set().contains(x) implies l.to_set().contains(x) by {
                let j = choose|j: int| 0 <= j < 1 && seq![c][j] == x;
                assert(x == c);
            }
            assert(words(c2).to_set() =~= l.to_set());
        } else {
            lemma_words_append(c1, c);
            assert forall|x: Seq<char>| l.to_set().contains(x) implies f.push(c).to_set().contains(x) by {
                let i = choose|i: int| 0 <= i < l.len() && l[i] == x;
                if x != c {
                    l.lemma_filter_contains(other_than(c), i);
                    let j = choose|j: int| 0 <= j < f.len() && f[j] == x;
                    assert(f.push(c)[j] == x);
                } else {
                    assert(f.push(c)[f.len() as int] == c);
                }
            }
            assert forall|x: Seq<char>| f.push(c).to_set().contains(x) implies l.to_set().contains(x) by {
                let j = choose|j: int| 0 <= j < f.push(c).len() && f.push(c)[j] == x;
                if j < f.len() {
                    assert(f[j] == x);
                    assert(f.contains(x));
                    l.lemma_filter_contains_rev(other_than(c), x);
                }
            }
            assert(words(c2).to_set() =~= l.to_set());
        }
    } else {
        if cur.len() == 0 {
            lemma_words_single(c);
            assert(l1 == seq![c]);
            assert(l1[0] == c);
            lemma_filter_push_dropped(Seq::empty(), c);
            assert(seq![c] =~= Seq::<Seq<char>>::empty().push(c));
            reveal(Seq::filter);
            assert(Seq::<Seq<char>>::empty().filter(other_than(c)) =~= Seq::<Seq<char>>::empty());
            assert(words(Seq::<char>::empty()) =~= Seq::<Seq<char>>::empty());
            assert(l =~= Seq::<Seq<char>>::empty());
            assert(words(c2).to_set() =~= l.to_set());
        } else {
            lemma_words_append(cur, c);
            assert(l1 == l.push(c));
            assert(l1[l.len() as int] == c);
            lemma_filter_push_dropped(l, c);
            assert forall|i: int| 0 <= i < l.len() implies other_than(c)(#[trigger] l[i]) by {
                if l[i] == c {
                    assert(l.contains(c));
                }
            }
            lemma_filter_all(l, other_than(c));
            lemma_words_join(l);
            assert(words(c2) == l);
        }
    }
}

/// `b` has `a`'s shape and every node of `b` carries the same set of class
/// names as its counterpart in `a`.
pub open spec fn same_classes(a: DomView, b: DomView) -> bool
    decreases a, 0int,
{
    &&& a.tag == b.tag
    &&& a.text == b.text
    &&& a.node_type == b.node_type
    &&& a.children.len() == b.children.len()
    &&& class_tokens(a.attrs) == class_tokens(b.attrs)
    &&& same_classes_upto(a.children, b.children, a.children.len() as int)
}

pub open spec fn same_classes_upto(xs: Seq<DomView>, ys: Seq<DomView>, k: int) -> bool
    decreases xs, k,
{
    if k <= 0 || k > xs.len() {
        true
    } else {
        same_classes_upto(xs, ys, k - 1) && same_classes(xs[k - 1], ys[k - 1])
    }
}

proof fn lemma_classes_upto_from_forall(xs: Seq<DomView>, ys: Seq<DomView>, k: int)
    requires
        0 <= k <= xs.len(),
        forall|i: int| 0 <= i < k ==> same_classes(#[trigger] xs[i], ys[i]),
    ensures
        same_classes_upto(xs, ys, k),
    decreases k,
{
    if k > 0 {
        lemma_classes_upto_from_forall(xs, ys, k - 1);
    }
}

proof fn lemma_classes_refl(a: DomView)
    ensures
        same_classes(a, a),
    decreases a,
{
    assert forall|i: int| 0 <= i < a.children.len() implies same_classes(
        #[trigger] a.children[i],
        a.children[i],
    ) by {
        lemma_classes_refl(a.children[i]);
    }
    lemma_classes_upto_from_forall(a.children, a.children, a.children.len() as int);
}

proof fn lemma_toggle_class_twice_tree(v: DomView, id: Seq<char>, c: Seq<char>)
    requires
        is_word(c),
    ensures
        same_classes(v, toggle_class_spec(toggle_class_spec(v, id, c), id, c)),
    decreases v,
{
    let w = toggle_class_spec(v, id, c);
    let w2 = toggle_class_spec(w, id, c);
    if is_target(v, id) {
        lemma_toggle_class_twice_attrs(v.attrs, c);
        assert(is_target(w, id));
        lemma_classes_refl(v);
        assert(w2.children == v.children);
    } else {
        assert(!is_target(w, id));
        assert forall|i: int| 0 <= i < v.children.len() implies same_classes(
            #[trigger] v.children[i],
            w2.children[i],
        ) by {
            lemma_toggle_class_twice_tree(v.children[i], id, c);
        }
        lemma_classes_upto_from_forall(v.children, w2.children, v.children.len() as int);
    }
}

/// Toggling a class name (non-empty, without whitespace) twice keeps the
/// tree's shape and gives every element back the set of class names it
/// carried.
pub proof fn law_toggle_class_twice(v: DomView, target: Seq<char>, class: Seq<char>)
    requires
        is_word(class),
    ensures
        same_classes(
            v,
            apply_action_spec(
                apply_action_spec(v, ActionSpec::ToggleClass(target, class)),
                ActionSpec::ToggleClass(target, class),
            ),
        ),
{
    lemma_toggle_class_twice_tree(v, strip_hash(target), class);
}

// ---------------------------------------------------------------------------
// jQuery show / hide / toggle
// ---------------------------------------------------------------------------

/// An `onclick` of the form `$('S').toggle()`, `$('S').show()` or
/// `$('S').hide()`, with no quote inside `S` and no `getElementById` call,
/// toggles the visibility of exactly `S`, the selector written inside
/// `$('...')`.
pub proof fn law_jquery_visibility(sel: Seq<char>, method: Seq<char>)
    requires
        method == "toggle"@ || method == "show"@ || method == "hide"@,
        forall|i: int| 0 <= i < sel.len() ==> #[trigger] sel[i] != '\'',
        !contains("$('"@ + sel + "')."@ + method + "()"@, "getElementById("@),
    ensures
        onclick_spec("$('"@ + sel + "')."@ + method + "()"@) == Some(ActionSpec::ToggleVisibility(sel)),
{
    reveal_strlit("$('");
    reveal_strlit("').");
    reveal_strlit("()");
    reveal_strlit("getElementById(");
    reveal_strlit("toggle");
    reveal_strlit("show");
    reveal_strlit("hide");
    reveal_strlit(".toggle(");
    reveal_strlit(".show(");
    reveal_strlit(".hide(");
    let a = "$('"@;
    let b = "')."@ + method + "()"@;
    let raw = a + sel + "')."@ + method + "()"@;
    assert(raw =~= a + sel + b);
    // no surrounding whitespace
    assert(raw[0] == '$');
    assert(raw.last() == ')');
    crate::text::lemma_trim_id(raw);
    // no getElementById
    lemma_find_from_bounds(raw, "getElementById("@, 0);
    assert(element_id_spec(raw) is None);
    // the selector
    assert(raw.subrange(0, 3) =~= a);
    assert(occurs_at(raw, a, 0));
    lemma_find_first(raw, a, 0);
    let rest = raw.skip(3);
    assert(rest =~= sel + b);
    let q = seq!['\''];
    assert forall|j: int| 0 <= j < sel.len() implies !occurs_at(rest, q, j) by {
        assert(rest[j] == sel[j]);
        if occurs_at(rest, q, j) {
            assert(rest.subrange(j, j + 1)[0] == rest[j]);
        }
    }
    assert(rest[sel.len() as int] == '\'');
    assert(rest.subrange(sel.len() as int, sel.len() + 1int) =~= q);
    lemma_find_first(rest, q, sel.len() as int);
    assert(rest.take(sel.len() as int) =~= sel);
    assert(delimited_after(raw, a, '\'') == Some(sel));
    assert(jquery_prefixes()[0] == (a, '\''));
    assert(jquery_selector_spec(raw) == Some(sel));
    // the method
    let call = seq!['.'] + method + seq!['('];
    let at: int = a.len() + sel.len() + 2int;
    assert(raw.subrange(at, at + call.len() as int) =~= call);
    lemma_occurs_contains(raw, call, at);
    let pats = seq![".toggle("@, ".show("@, ".hide("@];
    if method == "toggle"@ {
        assert(call =~= ".toggle("@);
        assert(pats[0] == ".toggle("@);
    } else if method == "show"@ {
        assert(call =~= ".show("@);
        assert(pats[1] == ".show("@);
    } else {
        assert(call =~= ".hide("@);
        assert(pats[2] == ".hide("@);
    }
    assert(contains_any(raw, pats));
}

/// An `onclick` that starts `document.getElementById('X')` (no quote in
/// `X`) and calls no `classList` method toggles the visibility of `#X`;
/// with `.classList.toggle`, `.add` or `.remove` absent, whatever else
/// follows (say `.style.display = 'block'`) does not change that.
pub proof fn law_element_id_visibility(id: Seq<char>, rest: Seq<char>)
    requires
        forall|i: int| 0 <= i < id.len() ==> #[trigger] id[i] != '\'',
        rest.len() == 0 || !crate::text::is_ws(rest.last()),
        !contains("document.getElementById('"@ + id + "')"@ + rest, "classList.toggle("@),
        !contains("document.getElementById('"@ + id + "')"@ + rest, "classList.add("@),
        !contains("document.getElementById('"@ + id + "')"@ + rest, "classList.remove("@),
    ensures
        onclick_spec("document.getElementById('"@ + id + "')"@ + rest) == Some(
            ActionSpec::ToggleVisibility(seq!['#'] + id),
        ),
{
    reveal_strlit("document.getElementById('");
    reveal_strlit("getElementById(");
    reveal_strlit("')");
    reveal_strlit("classList.toggle(");
    reveal_strlit("classList.add(");
    reveal_strlit("classList.remove(");
    let pre = "document.getElementById('"@;
    let raw = pre + id + "')"@ + rest;
    let g = "getElementById("@;
    assert(pre.len() == 25);
    assert(raw[0] == 'd');
    assert(!crate::text::is_ws('d') && !crate::text::is_ws(')'));
    if rest.len() == 0 {
        assert(raw.last() == ')');
    } else {
        assert(raw.last() == rest.last());
    }
    crate::text::lemma_trim_id(raw);
    // getElementById( at 9, not earlier
    assert(raw.subrange(9, 24) =~= g);
    assert forall|j: int| 0 <= j < 9 implies !occurs_at(raw, g, j) by {
        if occurs_at(raw, g, j) {
            assert(raw.subrange(j, j + 15)[0] == raw[j]);
            assert(raw[j] != 'g');
        }
    }
    lemma_find_first(raw, g, 9);
    let r0 = raw.skip(24);
    assert(r0 =~= seq!['\''] + id + "')"@ + rest);
    assert(r0[0] == '\'');
    if rest.len() == 0 {
        assert(r0.last() == ')');
    } else {
        assert(r0.last() == rest.last());
    }
    crate::text::lemma_trim_id(r0);
    let r1 = r0.drop_first();
    assert(r1 =~= id + "')"@ + rest);
    let q = seq!['\''];
    assert forall|j: int| 0 <= j < id.len() implies !occurs_at(r1, q, j) by {
        assert(r1[j] == id[j]);
        if occurs_at(r1, q, j) {
            assert(r1.subrange(j, j + 1)[0] == r1[j]);
        }
    }
    assert(r1.subrange(id.len() as int, id.len() + 1int) =~= q);
    lemma_find_first(r1, q, id.len() as int);
    assert(r1.take(id.len() as int) =~= id);
    assert(element_id_spec(raw) == Some(id));
    lemma_find_from_bounds(raw, "classList.toggle("@, 0);
    lemma_find_from_bounds(raw, "classList.add("@, 0);
    lemma_find_from_bounds(raw, "classList.remove("@, 0);
    assert(class_toggle_spec(raw) is None);
}

} // verus!
