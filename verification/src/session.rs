//! What a browsing session decides by itself: the values typed into a page
//! and the checked state of its checkboxes and radios, which elements an
//! action may target, how elements are looked up, which input serves a
//! purpose, where `back` leads, and the address of a search.
use vstd::prelude::*;

use std::collections::{HashMap, HashSet};

use crate::dom::{attrs_remove, view_attrs, without_attr};
use crate::fetch::{
    button_formaction, default_data_spec, default_form_data, fields_view, find_form_index_for_button,
    buttons_view, form_index_from, formaction_from, forms_view, inert_href_spec, is_inert_href,
    join_url, ostr, sv, UrlParts, UrlView,
    url_join_result, FetchError, FetchErrorView, FieldSpec, FormInfo, FormSpec,
};
use crate::js::{BehaviorSpec, JsBehavior, behavior_views};
use crate::output::{elems_view, form_control, ElemSpec, SpatialElement};
use crate::search::{InputPurpose, SearchEngine};
use crate::text::{
    contains, contains_str, copy_string, decimal, push_decimal, push_str, spec_to_lowercase,
    str_eq, to_lowercase, to_owned, trim, trim_str,
};

verus! {

broadcast use {vstd::string::group_string_axioms, vstd::std_specs::hash::group_hash_axioms};

// ---------------------------------------------------------------------------
// Form state
// ---------------------------------------------------------------------------

/// The values typed or selected into a page's fields and the checked state
/// set on its checkboxes and radios, by element id.
pub struct FormState {
    values: HashMap<u32, String>,
    checked: HashSet<u32>,
    unchecked: HashSet<u32>,
}

impl FormState {
    /// The typed values.
    pub closed spec fn values_view(&self) -> Map<u32, Seq<char>> {
        self.values@.map_values(|s: String| s@)
    }

    /// Ids set checked.
    pub closed spec fn checked_view(&self) -> Set<u32> {
        self.checked@
    }

    /// Ids set unchecked.
    pub closed spec fn unchecked_view(&self) -> Set<u32> {
        self.unchecked@
    }

    /// No id is both checked and unchecked.
    pub closed spec fn wf(&self) -> bool {
        self.checked@.disjoint(self.unchecked@)
    }

    /// The state the session gives a checkbox: set checked, set unchecked,
    /// or none.
    pub open spec fn state_of(&self, id: u32) -> Option<bool> {
        if self.checked_view().contains(id) {
            Some(true)
        } else if self.unchecked_view().contains(id) {
            Some(false)
        } else {
            None
        }
    }

    /// Whether a checkbox counts as checked, given its state in the page.
    pub open spec fn effective(&self, id: u32, default_checked: bool) -> bool {
        match self.state_of(id) {
            Some(b) => b,
            None => default_checked,
        }
    }

    pub fn new() -> (r: Self)
        ensures
            r.wf(),
            r.values_view() == Map::<u32, Seq<char>>::empty(),
            r.checked_view() == Set::<u32>::empty(),
            r.unchecked_view() == Set::<u32>::empty(),
    {
        let r = FormState { values: HashMap::new(), checked: HashSet::new(), unchecked: HashSet::new() };
        proof {
            assert(r.values_view() =~= Map::<u32, Seq<char>>::empty());
        }
        r
    }

    /// Forgets everything (a new page was loaded).
    pub fn clear(&mut self)
        ensures
            final(self).wf(),
            final(self).values_view() == Map::<u32, Seq<char>>::empty(),
            final(self).checked_view() == Set::<u32>::empty(),
            final(self).unchecked_view() == Set::<u32>::empty(),
    {
        self.values.clear();
        self.checked.clear();
        self.unchecked.clear();
        proof {
            assert(self.values_view() =~= Map::<u32, Seq<char>>::empty());
        }
    }

    /// Records the text of a field.
    pub fn set_value(&mut self, id: u32, text: &str)
        requires
            old(self).wf(),
        ensures
            final(self).wf(),
            final(self).values_view() == old(self).values_view().insert(id, text@),
            final(self).checked_view() == old(self).checked_view(),
            final(self).unchecked_view() == old(self).unchecked_view(),
    {
        self.values.insert(id, to_owned(text));
        proof {
            assert(self.values_view() =~= old(self).values_view().insert(id, text@));
        }
    }

    /// The text recorded for a field.
    pub fn value(&self, id: u32) -> (r: Option<&String>)
        ensures
            match r {
                Some(v) => self.values_view().contains_key(id) && self.values_view()[id] == v@,
                None => !self.values_view().contains_key(id),
            },
    {
        self.values.get(&id)
    }

    /// Sets a checkbox or radio checked.
    pub fn check(&mut self, id: u32)
        requires
            old(self).wf(),
        ensures
            final(self).wf(),
            final(self).checked_view() == old(self).checked_view().insert(id),
            final(self).unchecked_view() == old(self).unchecked_view().remove(id),
            final(self).values_view() == old(self).values_view(),
    {
        self.checked.insert(id);
        self.unchecked.remove(&id);
        proof {
            assert(self.checked@.disjoint(self.unchecked@));
        }
    }

    /// Sets a checkbox or radio unchecked.
    pub fn uncheck(&mut self, id: u32)
        requires
            old(self).wf(),
        ensures
            final(self).wf(),
            final(self).unchecked_view() == old(self).unchecked_view().insert(id),
            final(self).checked_view() == old(self).checked_view().remove(id),
            final(self).values_view() == old(self).values_view(),
    {
        self.unchecked.insert(id);
        self.checked.remove(&id);
        proof {
            assert(self.checked@.disjoint(self.unchecked@));
        }
    }

    /// The state the session gives a checkbox.
    pub fn state(&self, id: u32) -> (r: Option<bool>)
        ensures
            r == self.state_of(id),
    {
        if self.checked.contains(&id) {
            Some(true)
        } else if self.unchecked.contains(&id) {
            Some(false)
        } else {
            None
        }
    }

    /// Flips a checkbox or radio, whose state in the page is
    /// `default_checked`, from its current state.
    pub fn toggle(&mut self, id: u32, default_checked: bool)
        requires
            old(self).wf(),
        ensures
            final(self).wf(),
            old(self).effective(id, default_checked) ==> final(self).checked_view() == old(
                self,
            ).checked_view().remove(id) && final(self).unchecked_view() == old(
                self,
            ).unchecked_view().insert(id),
            !old(self).effective(id, default_checked) ==> final(self).checked_view() == old(
                self,
            ).checked_view().insert(id) && final(self).unchecked_view() == old(
                self,
            ).unchecked_view().remove(id),
            final(self).values_view() == old(self).values_view(),
    {
        let currently = match self.state(id) {
            Some(b) => b,
            None => default_checked,
        };
        if currently {
            self.uncheck(id);
        } else {
            self.check(id);
        }
    }
}

/// Typing into an element makes the session report that text for it; what
/// was typed into any other element stays as it was.
pub proof fn law_value_after_set(
    before: FormState,
    after: FormState,
    id: u32,
    other: u32,
    t: Seq<char>,
)
    requires
        after.values_view() == before.values_view().insert(id, t),
        other != id,
    ensures
        after.values_view().contains_key(id),
        after.values_view()[id] == t,
        after.values_view().contains_key(other) == before.values_view().contains_key(other),
        before.values_view().contains_key(other) ==> after.values_view()[other]
            == before.values_view()[other],
{
}

/// Checking a box makes the session report it checked, whatever came
/// before; unchecking makes it report it unchecked; neither touches any
/// other box or any typed value.
pub proof fn law_check_uncheck(s: FormState, id: u32, other: u32)
    requires
        s.wf(),
        other != id,
    ensures
        ({
            let c = s.checked_view().insert(id);
            let u = s.unchecked_view().remove(id);
            c.contains(id) && !u.contains(id) && (c.contains(other) == s.checked_view().contains(
                other,
            )) && (u.contains(other) == s.unchecked_view().contains(other))
        }),
        ({
            let c = s.checked_view().remove(id);
            let u = s.unchecked_view().insert(id);
            !c.contains(id) && u.contains(id) && (c.contains(other) == s.checked_view().contains(
                other,
            )) && (u.contains(other) == s.unchecked_view().contains(other))
        }),
{
}

/// Toggling a box flips whether it counts as checked, and toggling twice
/// gives back the state it counted as before.
pub proof fn law_toggle_flips(
    before: FormState,
    mid: FormState,
    after: FormState,
    id: u32,
    default_checked: bool,
)
    requires
        before.wf(),
        mid.wf(),
        before.effective(id, default_checked) ==> mid.checked_view() == before.checked_view().remove(
            id,
        ) && mid.unchecked_view() == before.unchecked_view().insert(id),
        !before.effective(id, default_checked) ==> mid.checked_view()
            == before.checked_view().insert(id) && mid.unchecked_view()
            == before.unchecked_view().remove(id),
        mid.effective(id, default_checked) ==> after.checked_view() == mid.checked_view().remove(id)
            && after.unchecked_view() == mid.unchecked_view().insert(id),
        !mid.effective(id, default_checked) ==> after.checked_view() == mid.checked_view().insert(
            id,
        ) && after.unchecked_view() == mid.unchecked_view().remove(id),
    ensures
        mid.effective(id, default_checked) == !before.effective(id, default_checked),
        after.effective(id, default_checked) == before.effective(id, default_checked),
{
}

/// An element as the session shows it: the text typed into it as its
/// value, and the state set on it as its `checked`, where the session
/// holds them; what the page gave otherwise.
pub open spec fn with_form(f: FormState, e: ElemSpec) -> ElemSpec {
    let id = e.id as u32;
    ElemSpec {
        val: if f.values_view().contains_key(id) {
            Some(f.values_view()[id])
        } else {
            e.val
        },
        checked: match f.state_of(id) {
            Some(c) => Some(c),
            None => e.checked,
        },
        ..e
    }
}

/// Shows the typed values and the checked states on the elements;
/// nothing else changes.
pub fn show_form_state(els: &mut Vec<SpatialElement>, form: &FormState)
    ensures
        elems_view(final(els)@) == elems_view(old(els)@).map_values(
            |e: ElemSpec| with_form(*form, e),
        ),
{
    let ghost ov = elems_view(els@);
    let mut i: usize = 0;
    while i < els.len()
        invariant
            i <= els@.len(),
            ov.len() == els@.len(),
            forall|j: int| 0 <= j < i ==> #[trigger] els@[j].ev() == with_form(*form, ov[j]),
            forall|j: int| i <= j < els@.len() ==> #[trigger] els@[j].ev() == ov[j],
        decreases els.len() - i,
    {
        let id = els[i].id;
        let new_val = match form.value(id) {
            Some(v) => Some(copy_string(v)),
            None => None,
        };
        let new_state = form.state(id);
        let mut e = els.remove(i);
        proof {
            assert(e.ev() == ov[i as int]);
            assert(ov[i as int].id as u32 == id);
        }
        if new_val.is_some() {
            e.val = new_val;
        }
        if new_state.is_some() {
            e.checked = new_state;
        }
        els.insert(i, e);
        i = i + 1;
    }
    proof {
        assert(elems_view(els@) =~= ov.map_values(|e: ElemSpec| with_form(*form, e)));
    }
}

/// After text is typed into an element, the session shows that text as
/// the element's value; the element's checked state is shown as before.
pub proof fn law_typed_value_shown(before: FormState, after: FormState, e: ElemSpec, t: Seq<char>)
    requires
        after.values_view() == before.values_view().insert(e.id as u32, t),
        after.checked_view() == before.checked_view(),
        after.unchecked_view() == before.unchecked_view(),
    ensures
        with_form(after, e).val == Some(t),
        with_form(after, e).checked == with_form(before, e).checked,
{
}

/// After a box is checked the session shows it checked, and after it is
/// unchecked it shows it unchecked, whatever the page said; its value is
/// shown as before.
pub proof fn law_checked_state_shown(
    before: FormState,
    checked: FormState,
    unchecked: FormState,
    e: ElemSpec,
)
    requires
        checked.checked_view() == before.checked_view().insert(e.id as u32),
        checked.unchecked_view() == before.unchecked_view().remove(e.id as u32),
        checked.values_view() == before.values_view(),
        unchecked.unchecked_view() == before.unchecked_view().insert(e.id as u32),
        unchecked.checked_view() == before.checked_view().remove(e.id as u32),
        unchecked.values_view() == before.values_view(),
    ensures
        with_form(checked, e).checked == Some(true),
        with_form(unchecked, e).checked == Some(false),
        with_form(checked, e).val == with_form(before, e).val,
        with_form(unchecked, e).val == with_form(before, e).val,
{
}

// ---------------------------------------------------------------------------
// Elements
// ---------------------------------------------------------------------------

/// The position of the first element with id `id`.
pub open spec fn position_of(es: Seq<ElemSpec>, id: u32) -> Option<int>
    decreases es.len(),
{
    if es.len() == 0 {
        None
    } else {
        match position_of(es.drop_last(), id) {
            Some(i) => Some(i),
            None => if es.last().id == id as nat {
                Some(es.len() - 1)
            } else {
                None
            },
        }
    }
}

pub fn element_index(els: &Vec<SpatialElement>, id: u32) -> (r: Option<usize>)
    ensures
        r matches Some(i) ==> i < els@.len() && els@[i as int].id == id,
        match r {
            Some(i) => position_of(elems_view(els@), id) == Some(i as int),
            None => position_of(elems_view(els@), id) is None,
        },
{
    let ghost ev = elems_view(els@);
    let mut i: usize = 0;
    proof {
        assert(ev.take(0) =~= Seq::<ElemSpec>::empty());
    }
    while i < els.len()
        invariant
            i <= els@.len(),
            ev == elems_view(els@),
            position_of(ev.take(i as int), id) is None,
        decreases els.len() - i,
    {
        proof {
            assert(ev.take(i + 1).drop_last() =~= ev.take(i as int));
            assert(ev.take(i + 1).last() == els@[i as int].ev());
        }
        if els[i].id == id {
            proof {
                lemma_position_prefix(ev, id, i + 1);
            }
            return Some(i);
        }
        i = i + 1;
    }
    proof {
        assert(ev.take(i as int) =~= ev);
    }
    None
}

proof fn lemma_position_prefix(es: Seq<ElemSpec>, id: u32, k: int)
    requires
        0 <= k <= es.len(),
        position_of(es.take(k), id) is Some,
    ensures
        position_of(es, id) == position_of(es.take(k), id),
    decreases es.len(),
{
    if k == es.len() {
        assert(es.take(k) =~= es);
    } else {
        assert(es.drop_last().take(k) =~= es.take(k));
        lemma_position_prefix(es.drop_last(), id, k);
    }
}

pub open spec fn not_found_message(id: u32) -> Seq<char> {
    "Element "@ + decimal(id as nat) + " not found"@
}

fn not_found(id: u32) -> (e: FetchError)
    ensures
        e is ActionError,
        e->ActionError_0@ == not_found_message(id),
{
    let mut s = to_owned("Element ");
    push_decimal(&mut s, id as u64);
    push_str(&mut s, " not found");
    FetchError::ActionError(s)
}

/// The verdict on typing into element `id`: it must exist and be an
/// `input` or a `textarea`.
pub open spec fn text_target_spec(es: Seq<ElemSpec>, id: u32) -> Result<(), Seq<char>> {
    match position_of(es, id) {
        None => Err(not_found_message(id)),
        Some(i) => if es[i].tag == "input"@ || es[i].tag == "textarea"@ {
            Ok(())
        } else {
            Err("Element "@ + decimal(id as nat) + " ("@ + es[i].tag + ") is not a text input"@)
        },
    }
}

pub open spec fn err_message(r: Result<(), FetchError>) -> Result<(), Seq<char>> {
    match r {
        Ok(()) => Ok(()),
        Err(FetchError::ActionError(m)) => Err(m@),
        Err(_) => Err(Seq::empty()),
    }
}

/// Checks that element `id` can be typed into.
pub fn check_text_target(els: &Vec<SpatialElement>, id: u32) -> (r: Result<(), FetchError>)
    ensures
        r matches Err(e) ==> e is ActionError,
        err_message(r) == text_target_spec(elems_view(els@), id),
{
    match element_index(els, id) {
        None => Err(not_found(id)),
        Some(i) => {
            let tag = els[i].tag.as_str();
            proof {
                assert(elems_view(els@)[i as int] == els@[i as int].ev());
            }
            if str_eq(tag, "input") || str_eq(tag, "textarea") {
                Ok(())
            } else {
                let mut s = to_owned("Element ");
                push_decimal(&mut s, id as u64);
                push_str(&mut s, " (");
                push_str(&mut s, tag);
                push_str(&mut s, ") is not a text input");
                Err(FetchError::ActionError(s))
            }
        },
    }
}

/// The verdict on selecting in element `id`: it must exist and be a
/// `select`.
pub open spec fn select_target_spec(es: Seq<ElemSpec>, id: u32) -> Result<(), Seq<char>> {
    match position_of(es, id) {
        None => Err(not_found_message(id)),
        Some(i) => if es[i].tag == "select"@ {
            Ok(())
        } else {
            Err("Element "@ + decimal(id as nat) + " ("@ + es[i].tag + ") is not a select"@)
        },
    }
}

/// Checks that element `id` is a select.
pub fn check_select_target(els: &Vec<SpatialElement>, id: u32) -> (r: Result<(), FetchError>)
    ensures
        r matches Err(e) ==> e is ActionError,
        err_message(r) == select_target_spec(elems_view(els@), id),
{
    match element_index(els, id) {
        None => Err(not_found(id)),
        Some(i) => {
            let tag = els[i].tag.as_str();
            proof {
                assert(elems_view(els@)[i as int] == els@[i as int].ev());
            }
            if str_eq(tag, "select") {
                Ok(())
            } else {
                let mut s = to_owned("Element ");
                push_decimal(&mut s, id as u64);
                push_str(&mut s, " (");
                push_str(&mut s, tag);
                push_str(&mut s, ") is not a select");
                Err(FetchError::ActionError(s))
            }
        },
    }
}

/// The verdict on checking element `id`: it must exist and be a checkbox
/// or radio.
pub open spec fn checkable_spec(es: Seq<ElemSpec>, id: u32) -> Result<(), Seq<char>> {
    match position_of(es, id) {
        None => Err(not_found_message(id)),
        Some(i) => if es[i].input_type == Some("checkbox"@) || es[i].input_type == Some(
            "radio"@,
        ) {
            Ok(())
        } else {
            Err("Element "@ + decimal(id as nat) + " is not a checkbox or radio"@)
        },
    }
}

/// Checks that element `id` is a checkbox or radio.
pub fn check_checkable(els: &Vec<SpatialElement>, id: u32) -> (r: Result<(), FetchError>)
    ensures
        r matches Err(e) ==> e is ActionError,
        err_message(r) == checkable_spec(elems_view(els@), id),
{
    match element_index(els, id) {
        None => Err(not_found(id)),
        Some(i) => {
            proof {
                assert(elems_view(els@)[i as int] == els@[i as int].ev());
            }
            let ok = match &els[i].input_type {
                Some(t) => str_eq(t.as_str(), "checkbox") || str_eq(t.as_str(), "radio"),
                None => false,
            };
            if ok {
                Ok(())
            } else {
                let mut s = to_owned("Element ");
                push_decimal(&mut s, id as u64);
                push_str(&mut s, " is not a checkbox or radio");
                Err(FetchError::ActionError(s))
            }
        },
    }
}

/// Positions of the elements satisfying `p`, in order.
pub open spec fn positions_where(es: Seq<ElemSpec>, p: spec_fn(ElemSpec) -> bool) -> Seq<int>
    decreases es.len(),
{
    if es.len() == 0 {
        Seq::empty()
    } else {
        let prev = positions_where(es.drop_last(), p);
        if p(es.last()) {
            prev.push(es.len() - 1)
        } else {
            prev
        }
    }
}

pub proof fn lemma_positions_bound(es: Seq<ElemSpec>, p: spec_fn(ElemSpec) -> bool)
    ensures
        forall|q: int|
            0 <= q < positions_where(es, p).len() ==> 0 <= #[trigger] positions_where(es, p)[q]
                < es.len(),
    decreases es.len(),
{
    if es.len() > 0 {
        lemma_positions_bound(es.drop_last(), p);
        let prev = positions_where(es.drop_last(), p);
        assert forall|q: int|
            0 <= q < positions_where(es, p).len() implies 0 <= #[trigger] positions_where(es, p)[q]
                < es.len() by {
            if q < prev.len() {
                assert(positions_where(es, p)[q] == prev[q]);
            }
        }
    }
}

pub open spec fn text_has(needle: Seq<char>) -> spec_fn(ElemSpec) -> bool {
    |e: ElemSpec| e.text matches Some(t) && contains(t, needle)
}

pub open spec fn role_is(role: Seq<char>) -> spec_fn(ElemSpec) -> bool {
    |e: ElemSpec| e.role == Some(role)
}

pub open spec fn text_has_fuzzy(needle: Seq<char>) -> spec_fn(ElemSpec) -> bool {
    |e: ElemSpec|
        e.text matches Some(t) && contains(spec_to_lowercase(t), spec_to_lowercase(needle))
}

pub open spec fn idx_view(v: Seq<usize>) -> Seq<int> {
    v.map_values(|x: usize| x as int)
}

/// Elements whose text contains `text`, by position.
pub fn find_by_text(els: &Vec<SpatialElement>, text: &str) -> (r: Vec<usize>)
    ensures
        idx_view(r@) == positions_where(elems_view(els@), text_has(text@)),
{
    let ghost ev = elems_view(els@);
    let mut out: Vec<usize> = Vec::new();
    let mut i: usize = 0;
    proof {
        assert(ev.take(0) =~= Seq::<ElemSpec>::empty());
        assert(idx_view(out@) =~= Seq::<int>::empty());
    }
    while i < els.len()
        invariant
            i <= els@.len(),
            ev == elems_view(els@),
            idx_view(out@) == positions_where(ev.take(i as int), text_has(text@)),
        decreases els.len() - i,
    {
        proof {
            assert(ev.take(i + 1).drop_last() =~= ev.take(i as int));
            assert(ev.take(i + 1).last() == els@[i as int].ev());
        }
        let hit = match &els[i].text {
            Some(t) => contains_str(t.as_str(), text),
            None => false,
        };
        if hit {
            let ghost prev = out@;
            out.push(i);
            proof {
                assert(idx_view(out@) =~= idx_view(prev).push(i as int));
            }
        }
        i = i + 1;
    }
    proof {
        assert(ev.take(i as int) =~= ev);
    }
    out
}

/// Elements whose text contains `text`, ignoring case, by position.
pub fn find_by_text_fuzzy(els: &Vec<SpatialElement>, text: &str) -> (r: Vec<usize>)
    ensures
        idx_view(r@) == positions_where(elems_view(els@), text_has_fuzzy(text@)),
{
    let needle = to_lowercase(text);
    let ghost ev = elems_view(els@);
    let mut out: Vec<usize> = Vec::new();
    let mut i: usize = 0;
    proof {
        assert(ev.take(0) =~= Seq::<ElemSpec>::empty());
        assert(idx_view(out@) =~= Seq::<int>::empty());
    }
    while i < els.len()
        invariant
            i <= els@.len(),
            ev == elems_view(els@),
            needle@ == spec_to_lowercase(text@),
            idx_view(out@) == positions_where(ev.take(i as int), text_has_fuzzy(text@)),
        decreases els.len() - i,
    {
        proof {
            assert(ev.take(i + 1).drop_last() =~= ev.take(i as int));
            assert(ev.take(i + 1).last() == els@[i as int].ev());
        }
        let hit = match &els[i].text {
            Some(t) => contains_str(to_lowercase(t.as_str()).as_str(), needle.as_str()),
            None => false,
        };
        if hit {
            let ghost prev = out@;
            out.push(i);
            proof {
                assert(idx_view(out@) =~= idx_view(prev).push(i as int));
            }
        }
        i = i + 1;
    }
    proof {
        assert(ev.take(i as int) =~= ev);
    }
    out
}

/// Elements with role `role`, by position.
pub fn find_by_role(els: &Vec<SpatialElement>, role: &str) -> (r: Vec<usize>)
    ensures
        idx_view(r@) == positions_where(elems_view(els@), role_is(role@)),
{
    let ghost ev = elems_view(els@);
    let mut out: Vec<usize> = Vec::new();
    let mut i: usize = 0;
    proof {
        assert(ev.take(0) =~= Seq::<ElemSpec>::empty());
        assert(idx_view(out@) =~= Seq::<int>::empty());
    }
    while i < els.len()
        invariant
            i <= els@.len(),
            ev == elems_view(els@),
            idx_view(out@) == positions_where(ev.take(i as int), role_is(role@)),
        decreases els.len() - i,
    {
        proof {
            assert(ev.take(i + 1).drop_last() =~= ev.take(i as int));
            assert(ev.take(i + 1).last() == els@[i as int].ev());
        }
        let hit = match &els[i].role {
            Some(r) => str_eq(r.as_str(), role),
            None => false,
        };
        if hit {
            let ghost prev = out@;
            out.push(i);
            proof {
                assert(idx_view(out@) =~= idx_view(prev).push(i as int));
            }
        }
        i = i + 1;
    }
    proof {
        assert(ev.take(i as int) =~= ev);
    }
    out
}

// ---------------------------------------------------------------------------
// Inputs by purpose
// ---------------------------------------------------------------------------

pub open spec fn or_empty(o: Option<Seq<char>>) -> Seq<char> {
    match o {
        Some(s) => s,
        None => Seq::empty(),
    }
}

/// Whether an input (type `text` when absent) serves a purpose, judged by
/// its type, role, and its name, label and placeholder in lower case.
pub open spec fn purpose_spec(
    purpose: InputPurpose,
    input_type: Option<Seq<char>>,
    name: Option<Seq<char>>,
    label: Option<Seq<char>>,
    ph: Option<Seq<char>>,
    role: Option<Seq<char>>,
) -> bool {
    let t = match input_type {
        Some(t) => t,
        None => "text"@,
    };
    let n = spec_to_lowercase(or_empty(name));
    let l = spec_to_lowercase(or_empty(label));
    let p = spec_to_lowercase(or_empty(ph));
    match purpose {
        InputPurpose::Password => t == "password"@,
        InputPurpose::Email => t == "email"@ || contains(n, "email"@) || contains(l, "email"@),
        InputPurpose::Username => (t == "text"@ || t == "email"@) && (contains(n, "user"@)
            || contains(n, "login"@) || contains(l, "user"@) || contains(l, "login"@)),
        InputPurpose::VerificationCode => (t == "text"@ || t == "number"@ || t == "tel"@) && (
        contains(n, "code"@) || contains(n, "otp"@) || contains(n, "verify"@) || contains(
            l,
            "code"@,
        ) || contains(l, "otp"@) || contains(l, "verify"@) || contains(p, "code"@) || contains(
            p,
            "otp"@,
        ) || contains(p, "verify"@)),
        InputPurpose::Search => t == "search"@ || role == Some("searchbox"@) || contains(
            n,
            "search"@,
        ),
        InputPurpose::Phone => t == "tel"@ || contains(n, "phone"@) || contains(l, "phone"@),
    }
}

fn lower_or_empty(o: Option<&str>) -> (r: String)
    ensures
        r@ == spec_to_lowercase(
            match o {
                Some(s) => s@,
                None => Seq::empty(),
            },
        ),
{
    match o {
        Some(s) => to_lowercase(s),
        None => {
            proof {
                reveal_strlit("");
                assert(""@ =~= Seq::<char>::empty());
            }
            to_lowercase("")
        },
    }
}

pub open spec fn os(o: Option<&str>) -> Option<Seq<char>> {
    match o {
        Some(s) => Some(s@),
        None => None,
    }
}

/// Whether an input serves `purpose` (see `purpose_spec`).
pub fn input_matches_purpose(
    purpose: InputPurpose,
    input_type: Option<&str>,
    name: Option<&str>,
    label: Option<&str>,
    ph: Option<&str>,
    role: Option<&str>,
) -> (b: bool)
    ensures
        b == purpose_spec(purpose, os(input_type), os(name), os(label), os(ph), os(role)),
{
    let t = match input_type {
        Some(t) => t,
        None => "text",
    };
    let n = lower_or_empty(name);
    let l = lower_or_empty(label);
    let p = lower_or_empty(ph);
    let n = n.as_str();
    let l = l.as_str();
    let p = p.as_str();
    match purpose {
        InputPurpose::Password => str_eq(t, "password"),
        InputPurpose::Email => str_eq(t, "email") || contains_str(n, "email") || contains_str(
            l,
            "email",
        ),
        InputPurpose::Username => (str_eq(t, "text") || str_eq(t, "email")) && (contains_str(
            n,
            "user",
        ) || contains_str(n, "login") || contains_str(l, "user") || contains_str(l, "login")),
        InputPurpose::VerificationCode => (str_eq(t, "text") || str_eq(t, "number") || str_eq(
            t,
            "tel",
        )) && (contains_str(n, "code") || contains_str(n, "otp") || contains_str(n, "verify")
            || contains_str(l, "code") || contains_str(l, "otp") || contains_str(l, "verify")
            || contains_str(p, "code") || contains_str(p, "otp") || contains_str(p, "verify")),
        InputPurpose::Search => str_eq(t, "search") || (match role {
            Some(r) => str_eq(r, "searchbox"),
            None => false,
        }) || contains_str(n, "search"),
        InputPurpose::Phone => str_eq(t, "tel") || contains_str(n, "phone") || contains_str(
            l,
            "phone",
        ),
    }
}

/// Whether an element is not hidden.
pub open spec fn shown() -> spec_fn(ElemSpec) -> bool {
    |e: ElemSpec| e.hidden != Some(true)
}

/// Whether an element's top edge lies above the fold.
pub open spec fn above(fold: i64) -> spec_fn(ElemSpec) -> bool {
    |e: ElemSpec| (e.b[1] as int) < fold
}

/// Whether an element's top edge lies at or below the fold.
pub open spec fn below(fold: i64) -> spec_fn(ElemSpec) -> bool {
    |e: ElemSpec| (e.b[1] as int) >= fold
}

/// Positions of the elements that are not hidden.
pub fn visible_positions(els: &Vec<SpatialElement>) -> (r: Vec<usize>)
    ensures
        idx_view(r@) == positions_where(elems_view(els@), shown()),
{
    let ghost ev = elems_view(els@);
    let mut out: Vec<usize> = Vec::new();
    let mut i: usize = 0;
    proof {
        assert(ev.take(0) =~= Seq::<ElemSpec>::empty());
        assert(idx_view(out@) =~= Seq::<int>::empty());
    }
    while i < els.len()
        invariant
            i <= els@.len(),
            ev == elems_view(els@),
            idx_view(out@) == positions_where(ev.take(i as int), shown()),
        decreases els.len() - i,
    {
        proof {
            assert(ev.take(i + 1).drop_last() =~= ev.take(i as int));
            assert(ev.take(i + 1).last() == els@[i as int].ev());
        }
        let hit = match els[i].hidden {
            Some(h) => !h,
            None => true,
        };
        if hit {
            let ghost prev = out@;
            out.push(i);
            proof {
                assert(idx_view(out@) =~= idx_view(prev).push(i as int));
            }
        }
        i = i + 1;
    }
    proof {
        assert(ev.take(i as int) =~= ev);
    }
    out
}

/// Positions of the elements above the fold (`above` is true) or at and
/// below it (`above` is false), by the top edge of their bounds.
pub fn fold_positions(els: &Vec<SpatialElement>, fold: i64, is_above: bool) -> (r: Vec<usize>)
    ensures
        idx_view(r@) == positions_where(
            elems_view(els@),
            if is_above {
                above(fold)
            } else {
                below(fold)
            },
        ),
{
    let ghost ev = elems_view(els@);
    let ghost p = if is_above {
        above(fold)
    } else {
        below(fold)
    };
    let mut out: Vec<usize> = Vec::new();
    let mut i: usize = 0;
    proof {
        assert(ev.take(0) =~= Seq::<ElemSpec>::empty());
        assert(idx_view(out@) =~= Seq::<int>::empty());
    }
    while i < els.len()
        invariant
            i <= els@.len(),
            ev == elems_view(els@),
            p == (if is_above {
                above(fold)
            } else {
                below(fold)
            }),
            idx_view(out@) == positions_where(ev.take(i as int), p),
        decreases els.len() - i,
    {
        proof {
            assert(ev.take(i + 1).drop_last() =~= ev.take(i as int));
            assert(ev.take(i + 1).last() == els@[i as int].ev());
        }
        let y = els[i].b[1] as i64;
        let hit = if is_above {
            y < fold
        } else {
            y >= fold
        };
        if hit {
            let ghost prev = out@;
            out.push(i);
            proof {
                assert(idx_view(out@) =~= idx_view(prev).push(i as int));
            }
        }
        i = i + 1;
    }
    proof {
        assert(ev.take(i as int) =~= ev);
    }
    out
}

/// The fold splits the elements: each is above it or at or below it, never
/// both, so the two lists together count every element once.
pub proof fn law_fold_partition(es: Seq<ElemSpec>, fold: i64)
    ensures
        positions_where(es, above(fold)).len() + positions_where(es, below(fold)).len() == es.len(),
    decreases es.len(),
{
    if es.len() > 0 {
        law_fold_partition(es.drop_last(), fold);
    }
}

// ---------------------------------------------------------------------------
// What changed between two pages
// ---------------------------------------------------------------------------

/// Two elements show the same thing: every field but the id agrees.
pub open spec fn same_content(a: ElemSpec, b: ElemSpec) -> bool {
    ElemSpec { id: 0, ..a } == ElemSpec { id: 0, ..b }
}

/// Whether no element of `others` shows the same thing as an element.
pub open spec fn fresh_in(others: Seq<ElemSpec>) -> spec_fn(ElemSpec) -> bool {
    |e: ElemSpec| !(exists|i: int| 0 <= i < others.len() && same_content(#[trigger] others[i], e))
}

pub open spec fn ids_at(es: Seq<ElemSpec>, ps: Seq<int>) -> Seq<nat> {
    ps.map_values(|p: int| es[p].id)
}

proof fn lemma_prefix_not_fresh(es: Seq<ElemSpec>, k: int)
    requires
        0 <= k <= es.len(),
    ensures
        positions_where(es.take(k), fresh_in(es)).len() == 0,
    decreases k,
{
    if k > 0 {
        assert(es.take(k).drop_last() =~= es.take(k - 1));
        lemma_prefix_not_fresh(es, k - 1);
        assert(same_content(es[k - 1], es.take(k).last()));
        assert(!fresh_in(es)(es.take(k).last()));
    }
}

/// A page compared with itself shows no change: nothing added, nothing
/// removed.
pub proof fn law_diff_self(es: Seq<ElemSpec>)
    ensures
        positions_where(es, fresh_in(es)).len() == 0,
{
    lemma_prefix_not_fresh(es, es.len() as int);
    assert(es.take(es.len() as int) =~= es);
}

fn opt_string_eq(a: &Option<String>, b: &Option<String>) -> (r: bool)
    ensures
        r == (crate::output::ov(*a) == crate::output::ov(*b)),
{
    match (a, b) {
        (Some(x), Some(y)) => str_eq(x.as_str(), y.as_str()),
        (None, None) => true,
        _ => false,
    }
}

fn same_element(a: &SpatialElement, b: &SpatialElement) -> (r: bool)
    ensures
        r == same_content(a.ev(), b.ev()),
{
    let r = str_eq(a.tag.as_str(), b.tag.as_str()) && opt_string_eq(&a.role, &b.role)
        && opt_string_eq(&a.text, &b.text) && opt_string_eq(&a.ph, &b.ph) && opt_string_eq(
        &a.href,
        &b.href,
    ) && opt_string_eq(&a.val, &b.val) && opt_string_eq(&a.input_type, &b.input_type)
        && opt_string_eq(&a.name, &b.name) && opt_string_eq(&a.label, &b.label) && a.checked
        == b.checked && a.disabled == b.disabled && a.required == b.required && a.hidden
        == b.hidden && a.b[0] == b.b[0] && a.b[1] == b.b[1] && a.b[2] == b.b[2] && a.b[3] == b.b[3];
    proof {
        if r {
            assert(a.ev().b =~= b.ev().b);
        }
    }
    r
}

fn shown_in(e: &SpatialElement, others: &Vec<SpatialElement>) -> (r: bool)
    ensures
        r == !fresh_in(elems_view(others@))(e.ev()),
{
    let ghost ov = elems_view(others@);
    let mut i: usize = 0;
    while i < others.len()
        invariant
            i <= others@.len(),
            ov == elems_view(others@),
            forall|k: int| 0 <= k < i ==> !same_content(#[trigger] ov[k], e.ev()),
        decreases others.len() - i,
    {
        proof {
            assert(ov[i as int] == others@[i as int].ev());
        }
        if same_element(&others[i], e) {
            return true;
        }
        i = i + 1;
    }
    false
}

/// What changed from the `old` page to the `new` one: the positions in
/// `new` of the elements that no element of `old` shows, and the ids of
/// the elements of `old` that no element of `new` shows.
pub fn diff_elements(old: &Vec<SpatialElement>, new: &Vec<SpatialElement>) -> (r: (Vec<usize>, Vec<u32>))
    ensures
        idx_view(r.0@) == positions_where(elems_view(new@), fresh_in(elems_view(old@))),
        r.1@.map_values(|x: u32| x as nat) == ids_at(
            elems_view(old@),
            positions_where(elems_view(old@), fresh_in(elems_view(new@))),
        ),
{
    let ghost ovw = elems_view(old@);
    let ghost nvw = elems_view(new@);
    let mut added: Vec<usize> = Vec::new();
    let mut j: usize = 0;
    proof {
        assert(nvw.take(0) =~= Seq::<ElemSpec>::empty());
        assert(idx_view(added@) =~= Seq::<int>::empty());
    }
    while j < new.len()
        invariant
            j <= new@.len(),
            ovw == elems_view(old@),
            nvw == elems_view(new@),
            idx_view(added@) == positions_where(nvw.take(j as int), fresh_in(ovw)),
        decreases new.len() - j,
    {
        proof {
            assert(nvw.take(j + 1).drop_last() =~= nvw.take(j as int));
            assert(nvw.take(j + 1).last() == new@[j as int].ev());
        }
        if !shown_in(&new[j], old) {
            let ghost prev = added@;
            added.push(j);
            proof {
                assert(idx_view(added@) =~= idx_view(prev).push(j as int));
            }
        }
        j = j + 1;
    }
    proof {
        assert(nvw.take(j as int) =~= nvw);
    }
    let mut removed: Vec<u32> = Vec::new();
    let mut i: usize = 0;
    proof {
        assert(ovw.take(0) =~= Seq::<ElemSpec>::empty());
        assert(removed@.map_values(|x: u32| x as nat) =~= Seq::<nat>::empty());
    }
    while i < old.len()
        invariant
            i <= old@.len(),
            ovw == elems_view(old@),
            nvw == elems_view(new@),
            removed@.map_values(|x: u32| x as nat) == ids_at(
                ovw,
                positions_where(ovw.take(i as int), fresh_in(nvw)),
            ),
        decreases old.len() - i,
    {
        proof {
            assert(ovw.take(i + 1).drop_last() =~= ovw.take(i as int));
            assert(ovw.take(i + 1).last() == old@[i as int].ev());
            lemma_positions_bound(ovw.take(i as int), fresh_in(nvw));
        }
        if !shown_in(&old[i], new) {
            let ghost prev = removed@;
            removed.push(old[i].id);
            proof {
                assert(removed@.map_values(|x: u32| x as nat) =~= prev.map_values(
                    |x: u32| x as nat,
                ).push(old@[i as int].id as nat));
                assert(ids_at(ovw, positions_where(ovw.take(i + 1), fresh_in(nvw))) =~= ids_at(
                    ovw,
                    positions_where(ovw.take(i as int), fresh_in(nvw)),
                ).push(ovw[i as int].id));
            }
        }
        i = i + 1;
    }
    proof {
        assert(ovw.take(i as int) =~= ovw);
    }
    (added, removed)
}

// ---------------------------------------------------------------------------
// Clicking
// ---------------------------------------------------------------------------

/// What a click on an element leads to.
#[derive(Debug)]
pub enum ClickPlan {
    /// Nothing to do: the page stays as it is.
    Stay,
    /// Follow a link to this reference (trimmed, not yet resolved).
    Follow(String),
    /// Simulate the script behaviour at this position of the list.
    Behavior(usize),
    /// Submit the form the element belongs to.
    Submit,
}

pub enum ClickSpec {
    Stay,
    Follow(Seq<char>),
    Behavior(int),
    Submit,
}

impl ClickPlan {
    pub open spec fn cv(&self) -> ClickSpec {
        match self {
            ClickPlan::Stay => ClickSpec::Stay,
            ClickPlan::Follow(h) => ClickSpec::Follow(h@),
            ClickPlan::Behavior(i) => ClickSpec::Behavior(*i as int),
            ClickPlan::Submit => ClickSpec::Submit,
        }
    }
}

/// The position of the first behaviour triggered by element `id`.
pub open spec fn first_trigger(bs: Seq<BehaviorSpec>, id: u32) -> Option<int>
    decreases bs.len(),
{
    if bs.len() == 0 {
        None
    } else {
        match first_trigger(bs.drop_last(), id) {
            Some(i) => Some(i),
            None => if bs.last().trigger_id == id as nat {
                Some(bs.len() - 1)
            } else {
                None
            },
        }
    }
}

/// A click on element `id`: a link with an address is followed, unless the
/// address leads nowhere (a fragment, `javascript:` and the like), which
/// changes nothing; otherwise the first script behaviour the element
/// triggers is simulated; otherwise a button, or a submit input, submits
/// its form; anything else changes nothing. A missing element is an error.
pub open spec fn click_spec(es: Seq<ElemSpec>, id: u32, bs: Seq<BehaviorSpec>) -> Result<
    ClickSpec,
    Seq<char>,
> {
    match position_of(es, id) {
        None => Err(not_found_message(id)),
        Some(i) => {
            let e = es[i];
            if e.tag == "a"@ && e.href is Some {
                if inert_href_spec(e.href->0) {
                    Ok(ClickSpec::Stay)
                } else {
                    Ok(ClickSpec::Follow(trim(e.href->0)))
                }
            } else {
                match first_trigger(bs, id) {
                    Some(k) => Ok(ClickSpec::Behavior(k)),
                    None => if e.tag == "button"@ || (e.tag == "input"@ && e.input_type == Some(
                        "submit"@,
                    )) {
                        Ok(ClickSpec::Submit)
                    } else {
                        Ok(ClickSpec::Stay)
                    },
                }
            }
        },
    }
}

pub open spec fn plan_view(r: Result<ClickPlan, FetchError>) -> Result<ClickSpec, Seq<char>> {
    match r {
        Ok(p) => Ok(p.cv()),
        Err(FetchError::ActionError(m)) => Err(m@),
        Err(_) => Err(Seq::empty()),
    }
}

fn trigger_index(behaviors: &Vec<JsBehavior>, id: u32) -> (r: Option<usize>)
    ensures
        match r {
            Some(k) => first_trigger(behavior_views(behaviors@), id) == Some(k as int),
            None => first_trigger(behavior_views(behaviors@), id) is None,
        },
{
    let ghost bv = behavior_views(behaviors@);
    let mut k: usize = 0;
    proof {
        assert(bv.take(0) =~= Seq::<BehaviorSpec>::empty());
    }
    while k < behaviors.len()
        invariant
            k <= behaviors@.len(),
            bv == behavior_views(behaviors@),
            first_trigger(bv.take(k as int), id) is None,
        decreases behaviors.len() - k,
    {
        proof {
            assert(bv.take(k + 1).drop_last() =~= bv.take(k as int));
        }
        if behaviors[k].trigger_id == id {
            proof {
                lemma_first_trigger_prefix(bv, id, k + 1);
            }
            return Some(k);
        }
        k = k + 1;
    }
    proof {
        assert(bv.take(k as int) =~= bv);
    }
    None
}

proof fn lemma_first_trigger_prefix(bs: Seq<BehaviorSpec>, id: u32, k: int)
    requires
        0 < k <= bs.len(),
        first_trigger(bs.take(k), id) == Some(k - 1),
    ensures
        first_trigger(bs, id) == Some(k - 1),
    decreases bs.len(),
{
    if bs.len() > k {
        assert(bs.drop_last().take(k) =~= bs.take(k));
        lemma_first_trigger_prefix(bs.drop_last(), id, k);
    } else {
        assert(bs.take(k) =~= bs);
    }
}

/// Decides what a click on element `id` does (see `click_spec`), given the
/// behaviours detected on the page.
pub fn plan_click(els: &Vec<SpatialElement>, id: u32, behaviors: &Vec<JsBehavior>) -> (r: Result<
    ClickPlan,
    FetchError,
>)
    ensures
        r matches Err(e) ==> e is ActionError,
        plan_view(r) == click_spec(elems_view(els@), id, behavior_views(behaviors@)),
{
    match element_index(els, id) {
        None => Err(not_found(id)),
        Some(i) => {
            let e = &els[i];
            if str_eq(e.tag.as_str(), "a") && e.href.is_some() {
                let h = e.href.as_ref().unwrap();
                if is_inert_href(h.as_str()) {
                    return Ok(ClickPlan::Stay);
                }
                return Ok(ClickPlan::Follow(trim_str(h.as_str())));
            }
            match trigger_index(behaviors, id) {
                Some(k) => Ok(ClickPlan::Behavior(k)),
                None => {
                    let is_submit = str_eq(e.tag.as_str(), "button") || (str_eq(
                        e.tag.as_str(),
                        "input",
                    ) && match &e.input_type {
                        Some(t) => str_eq(t.as_str(), "submit"),
                        None => false,
                    });
                    if is_submit {
                        Ok(ClickPlan::Submit)
                    } else {
                        Ok(ClickPlan::Stay)
                    }
                },
            }
        },
    }
}

/// Whether element `e` is a visible input that serves `purpose`.
pub open spec fn serves_purpose(purpose: InputPurpose) -> spec_fn(ElemSpec) -> bool {
    |e: ElemSpec|
        e.hidden != Some(true) && e.tag == "input"@ && purpose_spec(
            purpose,
            e.input_type,
            e.name,
            e.label,
            e.ph,
            e.role,
        )
}

/// The position of the first input that serves `purpose`.
pub fn find_input_by_purpose(els: &Vec<SpatialElement>, purpose: InputPurpose) -> (r: Option<usize>)
    ensures
        match r {
            Some(i) => i < els@.len() && serves_purpose(purpose)(elems_view(els@)[i as int])
                && forall|j: int| 0 <= j < i ==> !serves_purpose(purpose)(#[trigger] elems_view(els@)[j]),
            None => forall|j: int| 0 <= j < els@.len() ==> !serves_purpose(purpose)(#[trigger] elems_view(els@)[j]),
        },
{
    let ghost ev = elems_view(els@);
    let mut i: usize = 0;
    while i < els.len()
        invariant
            i <= els@.len(),
            ev == elems_view(els@),
            forall|j: int| 0 <= j < i ==> !serves_purpose(purpose)(#[trigger] ev[j]),
        decreases els.len() - i,
    {
        let e = &els[i];
        let visible = match e.hidden {
            Some(h) => !h,
            None => true,
        };
        let ok = visible && str_eq(e.tag.as_str(), "input") && input_matches_purpose(
            purpose,
            match &e.input_type {
                Some(t) => Some(t.as_str()),
                None => None,
            },
            match &e.name {
                Some(t) => Some(t.as_str()),
                None => None,
            },
            match &e.label {
                Some(t) => Some(t.as_str()),
                None => None,
            },
            match &e.ph {
                Some(t) => Some(t.as_str()),
                None => None,
            },
            match &e.role {
                Some(t) => Some(t.as_str()),
                None => None,
            },
        );
        proof {
            assert(ev[i as int] == els@[i as int].ev());
        }
        if ok {
            return Some(i);
        }
        i = i + 1;
    }
    None
}

// ---------------------------------------------------------------------------
// Submitting a form
// ---------------------------------------------------------------------------

/// Whether some field of the form carries the name `name`.
pub open spec fn has_field_named(fields: Seq<FieldSpec>, name: Seq<char>) -> bool {
    exists|i: int| 0 <= i < fields.len() && #[trigger] fields[i].name == Some(name)
}

/// Whether some pair of the data carries the name `name`.
pub open spec fn has_pair_named(data: Seq<(Seq<char>, Seq<char>)>, name: Seq<char>) -> bool {
    exists|i: int| 0 <= i < data.len() && #[trigger] data[i].0 == name
}

/// `data` with the value of every pair named `name` replaced by `v`; the
/// pairs keep their order and the other pairs are unchanged.
pub open spec fn set_named(
    data: Seq<(Seq<char>, Seq<char>)>,
    name: Seq<char>,
    v: Seq<char>,
) -> Seq<(Seq<char>, Seq<char>)> {
    data.map_values(
        |p: (Seq<char>, Seq<char>)|
            if p.0 == name {
                (p.0, v)
            } else {
                p
            },
    )
}

pub open spec fn checkable_type(t: Option<Seq<char>>) -> bool {
    t == Some("checkbox"@) || t == Some("radio"@)
}

/// What the session's state does to the submitted data for one element of
/// the page, by the element's name `n`, when it is a form control and some
/// field of the form carries that name: a typed value replaces the value of
/// every pair named `n`; a checkbox or radio set checked gives every pair
/// named `n` its value (`on` without one), or adds the pair when there is
/// none; one set unchecked drops every pair named `n`.
pub open spec fn overlay_step(
    data: Seq<(Seq<char>, Seq<char>)>,
    e: ElemSpec,
    fields: Seq<FieldSpec>,
    st: FormState,
) -> Seq<(Seq<char>, Seq<char>)> {
    let id = e.id as u32;
    if !form_control(e.tag) {
        data
    } else {
        match e.name {
            None => data,
            Some(n) => if !has_field_named(fields, n) {
                data
            } else {
                let d1 = if st.values_view().contains_key(id) {
                    set_named(data, n, st.values_view()[id])
                } else {
                    data
                };
                if checkable_type(e.input_type) {
                    match st.state_of(id) {
                        Some(true) => {
                            let v = match e.val {
                                Some(v) => v,
                                None => "on"@,
                            };
                            if has_pair_named(d1, n) {
                                set_named(d1, n, v)
                            } else {
                                d1.push((n, v))
                            }
                        },
                        Some(false) => attrs_remove(d1, n),
                        None => d1,
                    }
                } else {
                    d1
                }
            },
        }
    }
}

/// What was typed into a named form control becomes the value of every
/// pair with that name in the submitted data, wherever the pairs stand;
/// the other pairs stay as they were.
pub proof fn law_typed_value_submitted(
    data: Seq<(Seq<char>, Seq<char>)>,
    e: ElemSpec,
    fields: Seq<FieldSpec>,
    st: FormState,
    n: Seq<char>,
)
    requires
        form_control(e.tag),
        e.name == Some(n),
        has_field_named(fields, n),
        st.values_view().contains_key(e.id as u32),
        !checkable_type(e.input_type),
    ensures
        overlay_step(data, e, fields, st).len() == data.len(),
        forall|i: int|
            0 <= i < data.len() ==> #[trigger] overlay_step(data, e, fields, st)[i] == if data[i].0
                == n {
                (n, st.values_view()[e.id as u32])
            } else {
                data[i]
            },
{
}

/// The state applied element by element, in page order.
pub open spec fn overlay_spec(
    data: Seq<(Seq<char>, Seq<char>)>,
    es: Seq<ElemSpec>,
    fields: Seq<FieldSpec>,
    st: FormState,
) -> Seq<(Seq<char>, Seq<char>)>
    decreases es.len(),
{
    if es.len() == 0 {
        data
    } else {
        overlay_step(overlay_spec(data, es.drop_last(), fields, st), es.last(), fields, st)
    }
}

fn has_field_named_exec(fields: &Vec<crate::fetch::FormField>, name: &str) -> (r: bool)
    ensures
        r == has_field_named(fields_view(fields@), name@),
{
    let ghost fv = fields_view(fields@);
    let mut i: usize = 0;
    while i < fields.len()
        invariant
            i <= fields@.len(),
            fv == fields_view(fields@),
            forall|k: int| 0 <= k < i ==> #[trigger] fv[k].name != Some(name@),
        decreases fields.len() - i,
    {
        proof {
            assert(fv[i as int] == fields@[i as int].fv());
        }
        let hit = match &fields[i].name {
            Some(n) => str_eq(n.as_str(), name),
            None => false,
        };
        if hit {
            proof {
                assert(fv[i as int].name == Some(name@));
            }
            return true;
        }
        i = i + 1;
    }
    false
}

/// Replaces the value of every pair named `name` by `v`; answers whether
/// there was any.
fn set_named_exec(data: &mut Vec<(String, String)>, name: &str, v: &str) -> (found: bool)
    ensures
        view_attrs(final(data)@) == set_named(view_attrs(old(data)@), name@, v@),
        found == has_pair_named(view_attrs(old(data)@), name@),
{
    let ghost d0 = view_attrs(data@);
    let mut found = false;
    let mut i: usize = 0;
    while i < data.len()
        invariant
            i <= data@.len(),
            d0.len() == data@.len(),
            forall|k: int| 0 <= k < i ==> #[trigger] view_attrs(data@)[k] == set_named(d0, name@, v@)[k],
            forall|k: int| i <= k < data@.len() ==> #[trigger] view_attrs(data@)[k] == d0[k],
            found == exists|k: int| 0 <= k < i && #[trigger] d0[k].0 == name@,
        decreases data.len() - i,
    {
        proof {
            assert(view_attrs(data@)[i as int] == d0[i as int]);
            assert(d0[i as int].0 == data@[i as int].0@);
        }
        let ghost fprev = found;
        if str_eq(data[i].0.as_str(), name) {
            let key = copy_string(&data[i].0);
            let ghost prev = data@;
            data.set(i, (key, to_owned(v)));
            found = true;
            proof {
                assert forall|k: int| 0 <= k < data@.len() && k != i implies #[trigger] view_attrs(data@)[k]
                    == view_attrs(prev)[k] by {
                    assert(data@[k] == prev[k]);
                }
            }
        }
        proof {
            assert(found == (exists|k: int| 0 <= k < i + 1 && #[trigger] d0[k].0 == name@)) by {
                if d0[i as int].0 == name@ {
                    assert(found);
                } else {
                    assert(found == fprev);
                }
            }
        }
        i = i + 1;
    }
    proof {
        assert(view_attrs(data@) =~= set_named(d0, name@, v@));
    }
    found
}

/// Overlays what was typed, checked and unchecked on the page onto the
/// data a form submits by default (see `overlay_step`).
pub fn overlay_form_data(
    data: &mut Vec<(String, String)>,
    form: &FormInfo,
    els: &Vec<SpatialElement>,
    state: &FormState,
)
    ensures
        view_attrs(final(data)@) == overlay_spec(
            view_attrs(old(data)@),
            elems_view(els@),
            fields_view(form.fields@),
            *state,
        ),
{
    let ghost d0 = view_attrs(data@);
    let ghost ev = elems_view(els@);
    let ghost fv = fields_view(form.fields@);
    let mut j: usize = 0;
    proof {
        assert(ev.take(0) =~= Seq::<ElemSpec>::empty());
    }
    while j < els.len()
        invariant
            j <= els@.len(),
            ev == elems_view(els@),
            fv == fields_view(form.fields@),
            view_attrs(data@) == overlay_spec(d0, ev.take(j as int), fv, *state),
        decreases els.len() - j,
    {
        let e = &els[j];
        let ghost before = view_attrs(data@);
        proof {
            assert(ev.take(j + 1).drop_last() =~= ev.take(j as int));
            assert(ev.take(j + 1).last() == e.ev());
            assert(e.ev().id as u32 == e.id);
        }
        let tag = e.tag.as_str();
        if str_eq(tag, "input") || str_eq(tag, "textarea") || str_eq(tag, "select") {
            match &e.name {
                None => {},
                Some(n) => {
                    if has_field_named_exec(&form.fields, n.as_str()) {
                        match state.value(e.id) {
                            Some(t) => {
                                let tv = copy_string(t);
                                set_named_exec(data, n.as_str(), tv.as_str());
                            },
                            None => {},
                        }
                        let checkable = match &e.input_type {
                            Some(t) => str_eq(t.as_str(), "checkbox") || str_eq(
                                t.as_str(),
                                "radio",
                            ),
                            None => false,
                        };
                        if checkable {
                            match state.state(e.id) {
                                Some(true) => {
                                    let val = match &e.val {
                                        Some(v) => copy_string(v),
                                        None => to_owned("on"),
                                    };
                                    proof {
                                        reveal_strlit("on");
                                    }
                                    let found = set_named_exec(data, n.as_str(), val.as_str());
                                    if !found {
                                        let ghost prev = data@;
                                        let key = copy_string(n);
                                        let ghost pair = (key@, val@);
                                        data.push((key, val));
                                        proof {
                                            assert(view_attrs(data@) =~= view_attrs(prev).push(pair));
                                        }
                                    }
                                },
                                Some(false) => {
                                    let kept = without_attr(data, n.as_str());
                                    *data = kept;
                                },
                                None => {},
                            }
                        }
                    }
                },
            }
        }
        proof {
            assert(view_attrs(data@) == overlay_step(before, e.ev(), fv, *state));
        }
        j = j + 1;
    }
    proof {
        assert(ev.take(j as int) =~= ev);
    }
}

/// How a form is sent: by POST (else by GET), to which address, with which
/// name / value pairs.
pub struct Submission {
    pub post: bool,
    pub target: UrlParts,
    pub data: Vec<(String, String)>,
}

/// The form a click on element `p` of `es` submits: the first form holding
/// a button that matches the element's name or text (see
/// `find_form_index_for_button`), else the first form.
pub open spec fn submitted_form(fs: Seq<FormSpec>, es: Seq<ElemSpec>, p: int) -> FormSpec {
    match form_index_from(fs, 0, es[p].name, es[p].text) {
        Some(i) => fs[i],
        None => fs[0],
    }
}

/// The action text of a submission: the clicked button's `formaction`,
/// else the form's `action`, else nothing.
pub open spec fn submission_action(f: FormSpec, e: ElemSpec) -> Seq<char> {
    match formaction_from(f.buttons, 0, e.name, e.text) {
        Some(a) => a,
        None => match f.action {
            Some(a) => a,
            None => Seq::empty(),
        },
    }
}

/// What a click on button `id` sends, or why it sends nothing: the button
/// must be on the page, the page must hold a form, and the form's action
/// must join onto the page's address.
pub open spec fn submission_spec(
    fs: Seq<FormSpec>,
    es: Seq<ElemSpec>,
    id: u32,
    base: Seq<char>,
    state: FormState,
) -> Result<(bool, UrlView, Seq<(Seq<char>, Seq<char>)>), FetchErrorView> {
    match position_of(es, id) {
        None => Err(FetchErrorView::ActionError("Button "@ + decimal(id as nat) + " not found"@)),
        Some(p) => if fs.len() == 0 {
            Err(FetchErrorView::ActionError("No form found on page"@))
        } else {
            let f = submitted_form(fs, es, p);
            match url_join_result(base, submission_action(f, es[p])) {
                Err(m) => Err(FetchErrorView::InvalidUrl(m)),
                Ok(t) => Ok(
                    (
                        spec_to_lowercase(
                            match f.method {
                                Some(m) => m,
                                None => "get"@,
                            },
                        ) == "post"@,
                        t,
                        overlay_spec(default_data_spec(f.fields), es, f.fields, state),
                    ),
                ),
            }
        },
    }
}

/// Works out what a click on submit button `id` sends: which form (see
/// `find_form_index_for_button`), its default data with the session's
/// typed values and checkbox states laid over it (see `overlay_form_data`),
/// the method, and the address, the button's `formaction` or the form's
/// `action` joined onto the page's address `base`.
pub fn plan_submission(
    forms: &Vec<FormInfo>,
    els: &Vec<SpatialElement>,
    id: u32,
    base: &str,
    state: &FormState,
) -> (r: Result<Submission, FetchError>)
    ensures
        match r {
            Ok(s) => submission_spec(forms_view(forms@), elems_view(els@), id, base@, *state) == Ok::<
                _,
                FetchErrorView,
            >((s.post, s.target.uv(), view_attrs(s.data@))),
            Err(e) => submission_spec(forms_view(forms@), elems_view(els@), id, base@, *state)
                == Err::<(bool, UrlView, Seq<(Seq<char>, Seq<char>)>), _>(e.fv()),
        },
{
    let ghost es = elems_view(els@);
    let ghost fs = forms_view(forms@);
    let p = match element_index(els, id) {
        Some(p) => p,
        None => {
            let mut s = to_owned("Button ");
            push_decimal(&mut s, id as u64);
            push_str(&mut s, " not found");
            return Err(FetchError::ActionError(s));
        },
    };
    proof {
        assert(es[p as int] == els@[p as int].ev());
    }
    if forms.len() == 0 {
        return Err(FetchError::ActionError(to_owned("No form found on page")));
    }
    let name = match &els[p].name {
        Some(n) => Some(n.as_str()),
        None => None,
    };
    let text = match &els[p].text {
        Some(t) => Some(t.as_str()),
        None => None,
    };
    proof {
        assert(ostr(name) == es[p as int].name);
        assert(ostr(text) == es[p as int].text);
    }
    let i = find_form_index_for_button(forms, name, text);
    proof {
        assert(fs[i as int] == forms@[i as int].formv());
        assert(fs[i as int] == submitted_form(fs, es, p as int));
    }
    let form = &forms[i];
    let formaction = button_formaction(form, name, text);
    let action: &str = match &formaction {
        Some(a) => a.as_str(),
        None => match &form.action {
            Some(a) => a.as_str(),
            None => "",
        },
    };
    proof {
        reveal_strlit("");
        let f = fs[i as int];
        assert(f.buttons == buttons_view(form.buttons@));
        assert(f.action == sv(form.action));
        assert(sv(formaction) == formaction_from(f.buttons, 0, es[p as int].name, es[p as int].text));
        assert(action@ == submission_action(f, es[p as int]));
    }
    let target = match join_url(base, action) {
        Ok(u) => u,
        Err(m) => return Err(FetchError::InvalidUrl(m)),
    };
    let mut data = default_form_data(form);
    overlay_form_data(&mut data, form, els, state);
    let method = match &form.method {
        Some(m) => to_lowercase(m.as_str()),
        None => to_lowercase("get"),
    };
    let post = str_eq(method.as_str(), "post");
    Ok(Submission { post, target, data })
}

// ---------------------------------------------------------------------------
// History and search addresses
// ---------------------------------------------------------------------------

/// Going back: with fewer than two pages visited there is nowhere to go;
/// else the current page is dropped and the one before it is the target.
pub fn back_target(history: &mut Vec<String>) -> (r: Result<String, FetchError>)
    ensures
        old(history)@.len() < 2 ==> (final(history)@ == old(history)@ && (r matches Err(e) && e.fv()
            == FetchErrorView::ActionError("No history to go back to"@))),
        old(history)@.len() >= 2 ==> (final(history)@ == old(history)@.drop_last() && (r matches Ok(
            t,
        ) && t@ == old(history)@[old(history)@.len() - 2]@)),
{
    if history.len() < 2 {
        proof {
            reveal_strlit("No history to go back to");
        }
        return Err(FetchError::ActionError(to_owned("No history to go back to")));
    }
    history.pop();
    let n = history.len();
    Ok(copy_string(&history[n - 1]))
}

/// The UTF-8 encoding of a character.
pub open spec fn utf8_char(c: char) -> Seq<u8> {
    let n = c as u32;
    if n < 0x80 {
        seq![n as u8]
    } else if n < 0x800 {
        seq![(0xC0 + n / 64) as u8, (0x80 + n % 64) as u8]
    } else if n < 0x10000 {
        seq![(0xE0 + n / 4096) as u8, (0x80 + (n / 64) % 64) as u8, (0x80 + n % 64) as u8]
    } else {
        seq![
            (0xF0 + n / 262144) as u8,
            (0x80 + (n / 4096) % 64) as u8,
            (0x80 + (n / 64) % 64) as u8,
            (0x80 + n % 64) as u8,
        ]
    }
}

/// The UTF-8 encoding of a text.
pub open spec fn utf8_text(s: Seq<char>) -> Seq<u8>
    decreases s.len(),
{
    if s.len() == 0 {
        Seq::empty()
    } else {
        utf8_text(s.drop_last()) + utf8_char(s.last())
    }
}

/// An upper-case hexadecimal digit.
pub open spec fn hex_digit(d: int) -> char {
    if d < 10 {
        (48 + d) as char
    } else {
        (55 + d) as char
    }
}

/// The bytes the form serializer writes as they are: ASCII letters and
/// digits, `*`, `-`, `.` and `_`.
pub open spec fn byte_unchanged(b: u8) -> bool {
    b == 42 || b == 45 || b == 46 || (48 <= b <= 57) || (65 <= b <= 90) || b == 95 || (97 <= b <= 122)
}

/// How the form serializer writes one byte: unchanged, a space as `+`,
/// anything else as `%` and two upper-case hexadecimal digits.
pub open spec fn serialize_byte(b: u8) -> Seq<char> {
    if byte_unchanged(b) {
        seq![b as char]
    } else if b == 32 {
        seq!['+']
    } else {
        seq!['%', hex_digit(b as int / 16), hex_digit(b as int % 16)]
    }
}

/// The form serializer's writing of a byte string.
pub open spec fn serialize_bytes(bs: Seq<u8>) -> Seq<char>
    decreases bs.len(),
{
    if bs.len() == 0 {
        Seq::empty()
    } else {
        serialize_bytes(bs.drop_last()) + serialize_byte(bs.last())
    }
}

/// What `form_urlencoded::Serializer` writes for one `key=value` pair into
/// an empty target: the UTF-8 bytes of each side serialized, joined by `=`.
pub open spec fn urlencoded_pair(key: Seq<char>, value: Seq<char>) -> Seq<char> {
    serialize_bytes(utf8_text(key)) + seq!['='] + serialize_bytes(utf8_text(value))
}

/// Calls `form_urlencoded::Serializer::append_pair` on an empty serializer
/// and returns what `finish` gives: `urlencoded_pair`, which spells out the
/// crate's byte serializer (no separator is written into an empty target).
#[verifier::external_body]
fn encode_pair(key: &str, value: &str) -> (r: String)
    ensures
        r@ == urlencoded_pair(key@, value@),
{
    url::form_urlencoded::Serializer::new(String::new()).append_pair(key, value).finish()
}

/// The address of a search on an engine.
pub open spec fn search_url_spec(query: Seq<char>, engine: SearchEngine) -> Seq<char> {
    match engine {
        SearchEngine::DuckDuckGo => "https://html.duckduckgo.com/html/?"@ + urlencoded_pair(
            "q"@,
            query,
        ),
        SearchEngine::Google => "https://www.google.com/search?"@ + urlencoded_pair("q"@, query)
            + "&num=10"@,
    }
}

pub fn search_url(query: &str, engine: SearchEngine) -> (r: String)
    ensures
        r@ == search_url_spec(query@, engine),
{
    let encoded = encode_pair("q", query);
    match engine {
        SearchEngine::DuckDuckGo => {
            let mut s = to_owned("https://html.duckduckgo.com/html/?");
            push_str(&mut s, encoded.as_str());
            s
        },
        SearchEngine::Google => {
            let mut s = to_owned("https://www.google.com/search?");
            push_str(&mut s, encoded.as_str());
            push_str(&mut s, "&num=10");
            s
        },
    }
}

} // verus!
