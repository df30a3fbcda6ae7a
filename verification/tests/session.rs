//! Session-side logic: form state, element lookup, action checks, history
//! and search addresses.

use browsy::fetch::{default_form_data, extract_forms, FetchError, FormButton, FormField, FormInfo};
use browsy::html::parse_html;
use browsy::output::SpatialElement;
use browsy::search::{InputPurpose, SearchEngine};
use browsy::js::{JsAction, JsBehavior};
use browsy::session::{
    back_target, check_checkable, find_input_by_purpose, fold_positions, plan_click,
    visible_positions, ClickPlan, check_select_target, check_text_target, element_index,
    find_by_role, find_by_text, find_by_text_fuzzy, input_matches_purpose, search_url,
    plan_submission, show_form_state, FormState,
};

fn s(v: &str) -> String {
    v.to_string()
}

fn el(id: u32, tag: &str, role: Option<&str>, text: Option<&str>, input_type: Option<&str>)
    -> SpatialElement {
    SpatialElement {
        id,
        tag: s(tag),
        role: role.map(s),
        text: text.map(s),
        ph: None,
        href: None,
        val: None,
        input_type: input_type.map(s),
        name: None,
        label: None,
        checked: None,
        disabled: None,
        required: None,
        hidden: None,
        b: [0, 0, 10, 10],
    }
}

fn page() -> Vec<SpatialElement> {
    vec![
        el(1, "a", Some("link"), Some("Sign In"), None),
        el(2, "input", Some("textbox"), None, Some("text")),
        el(3, "input", Some("checkbox"), Some("Remember me"), Some("checkbox")),
        el(4, "select", Some("combobox"), None, None),
        el(5, "button", Some("button"), Some("sign in now"), None),
    ]
}

fn action_message(r: Result<(), FetchError>) -> String {
    match r {
        Err(FetchError::ActionError(m)) => m,
        Err(_) => panic!("unexpected error kind"),
        Ok(()) => s("ok"),
    }
}

#[test]
fn form_state_check_uncheck_toggle() {
    let mut st = FormState::new();
    assert_eq!(st.state(3), None);
    st.check(3);
    assert_eq!(st.state(3), Some(true));
    st.uncheck(3);
    assert_eq!(st.state(3), Some(false));
    st.toggle(3, true);
    assert_eq!(st.state(3), Some(true));
    st.toggle(7, true);
    assert_eq!(st.state(7), Some(false));
    st.toggle(7, true);
    assert_eq!(st.state(7), Some(true));
    st.set_value(2, "bob");
    assert_eq!(st.value(2).map(|v| v.as_str()), Some("bob"));
    st.set_value(2, "alice");
    assert_eq!(st.value(2).map(|v| v.as_str()), Some("alice"));
    st.clear();
    assert_eq!(st.value(2), None);
    assert_eq!(st.state(3), None);
}

#[test]
fn element_lookup_and_checks() {
    let els = page();
    assert_eq!(element_index(&els, 4), Some(3));
    assert_eq!(element_index(&els, 9), None);
    assert_eq!(action_message(check_text_target(&els, 2)), "ok");
    assert_eq!(action_message(check_text_target(&els, 1)), "Element 1 (a) is not a text input");
    assert_eq!(action_message(check_text_target(&els, 9)), "Element 9 not found");
    assert_eq!(action_message(check_select_target(&els, 4)), "ok");
    assert_eq!(action_message(check_select_target(&els, 2)), "Element 2 (input) is not a select");
    assert_eq!(action_message(check_checkable(&els, 3)), "ok");
    assert_eq!(action_message(check_checkable(&els, 2)), "Element 2 is not a checkbox or radio");
}

#[test]
fn finding_elements() {
    let els = page();
    assert_eq!(find_by_text(&els, "Sign"), vec![0]);
    assert_eq!(find_by_text_fuzzy(&els, "SIGN IN"), vec![0, 4]);
    assert_eq!(find_by_role(&els, "checkbox"), vec![2]);
    assert!(find_by_role(&els, "heading").is_empty());
}

#[test]
fn input_purposes() {
    assert!(input_matches_purpose(InputPurpose::Password, Some("password"), None, None, None, None));
    assert!(input_matches_purpose(InputPurpose::Email, None, Some("User_Email"), None, None, None));
    assert!(input_matches_purpose(InputPurpose::Username, None, Some("login"), None, None, None));
    assert!(!input_matches_purpose(InputPurpose::Username, Some("password"), Some("login"), None,
        None, None));
    assert!(input_matches_purpose(InputPurpose::VerificationCode, Some("tel"), None, None,
        Some("Enter OTP"), None));
    assert!(input_matches_purpose(InputPurpose::Search, None, None, None, None, Some("searchbox")));
    assert!(input_matches_purpose(InputPurpose::Phone, None, None, Some("Phone number"), None, None));
}

#[test]
fn going_back() {
    let mut h = vec![s("https://a/"), s("https://b/")];
    assert_eq!(back_target(&mut h).ok(), Some(s("https://a/")));
    assert_eq!(h, vec![s("https://a/")]);
    match back_target(&mut h) {
        Err(FetchError::ActionError(m)) => assert_eq!(m, "No history to go back to"),
        _ => panic!("expected an action error"),
    }
    assert_eq!(h.len(), 1);
}

#[test]
fn search_addresses_are_encoded() {
    assert_eq!(
        search_url("rust & verus", SearchEngine::DuckDuckGo),
        "https://html.duckduckgo.com/html/?q=rust+%26+verus"
    );
    assert_eq!(
        search_url("a=b", SearchEngine::Google),
        "https://www.google.com/search?q=a%3Db&num=10"
    );
    assert_eq!(
        search_url("é~*-._Z9", SearchEngine::DuckDuckGo),
        "https://html.duckduckgo.com/html/?q=%C3%A9%7E*-._Z9"
    );
}

#[test]
fn click_plans() {
    let mut els = page();
    els[0].href = Some(s("  /login "));
    els.push(SpatialElement { href: Some(s("javascript:void(0)")), ..el(6, "a", Some("link"), None, None) });
    els.push(el(7, "input", Some("button"), None, Some("submit")));
    let behaviors = vec![
        JsBehavior { trigger_id: 3, action: JsAction::ToggleVisibility { target: s("#x") } },
        JsBehavior { trigger_id: 5, action: JsAction::Navigate { url: s("/a") } },
        JsBehavior { trigger_id: 5, action: JsAction::Navigate { url: s("/b") } },
    ];
    assert!(matches!(plan_click(&els, 1, &behaviors), Ok(ClickPlan::Follow(h)) if h == "/login"));
    assert!(matches!(plan_click(&els, 6, &behaviors), Ok(ClickPlan::Stay)));
    assert!(matches!(plan_click(&els, 5, &behaviors), Ok(ClickPlan::Behavior(1))));
    assert!(matches!(plan_click(&els, 5, &Vec::new()), Ok(ClickPlan::Submit)));
    assert!(matches!(plan_click(&els, 7, &behaviors), Ok(ClickPlan::Submit)));
    assert!(matches!(plan_click(&els, 2, &behaviors), Ok(ClickPlan::Stay)));
    match plan_click(&els, 42, &behaviors) {
        Err(FetchError::ActionError(m)) => assert_eq!(m, "Element 42 not found"),
        _ => panic!("expected an action error"),
    }
}

#[test]
fn inputs_by_purpose() {
    let mut els = page();
    els.push(el(8, "input", Some("textbox"), None, Some("password")));
    let mut code = el(9, "input", Some("textbox"), None, Some("text"));
    code.ph = Some(s("Verification code"));
    els.push(code);
    assert_eq!(find_input_by_purpose(&els, InputPurpose::Password), Some(5));
    assert_eq!(find_input_by_purpose(&els, InputPurpose::VerificationCode), Some(6));
    assert_eq!(find_input_by_purpose(&els, InputPurpose::Phone), None);
}

#[test]
fn typed_and_checked_state_reaches_the_form() {
    let dom = parse_html(
        r#"<html><body><form action="/s">
            <input name="q" value="old">
            <input type="checkbox" name="safe" value="1" checked>
            <input type="checkbox" name="news">
        </form></body></html>"#,
    );
    let forms = extract_forms(&dom);
    let form = &forms[0];
    let named = |id: u32, name: &str, t: Option<&str>, val: Option<&str>| {
        let mut e = el(id, "input", None, None, t);
        e.name = Some(s(name));
        e.val = val.map(s);
        e
    };
    let els = vec![named(1, "q", None, Some("old")), named(2, "safe", Some("checkbox"), Some("1")),
        named(3, "news", Some("checkbox"), None)];
    let mut state = FormState::new();
    state.set_value(1, "rust");
    state.uncheck(2);
    let mut data = default_form_data(form);
    assert_eq!(data, vec![(s("q"), s("old")), (s("safe"), s("1"))]);
    browsy::session::overlay_form_data(&mut data, form, &els, &state);
    assert_eq!(data, vec![(s("q"), s("rust"))]);
    let mut state = FormState::new();
    state.check(3);
    let mut data = default_form_data(form);
    browsy::session::overlay_form_data(&mut data, form, &els, &state);
    // A box checked in the session but not in the page is added.
    assert_eq!(data, vec![(s("q"), s("old")), (s("safe"), s("1")), (s("news"), s("on"))]);
    let mut state = FormState::new();
    state.check(2);
    let mut data = default_form_data(form);
    browsy::session::overlay_form_data(&mut data, form, &els, &state);
    assert_eq!(data, vec![(s("q"), s("old")), (s("safe"), s("1"))]);
}

#[test]
fn visibility_and_fold() {
    let mut els = page();
    els[1].hidden = Some(true);
    els[3].b = [0, 900, 10, 10];
    els[4].b = [0, 800, 10, 10];
    assert_eq!(visible_positions(&els), vec![0, 2, 3, 4]);
    assert_eq!(fold_positions(&els, 800, true), vec![0, 1, 2]);
    assert_eq!(fold_positions(&els, 800, false), vec![3, 4]);
}

#[test]
fn page_changes() {
    let old = page();
    let mut new = page();
    new[4].text = Some(s("Sign Out"));
    new.remove(0);
    new.push(el(9, "p", None, Some("Welcome"), None));
    let (added, removed) = browsy::session::diff_elements(&old, &new);
    // Ids do not count: elements match by what they show.
    assert_eq!(added, vec![3, 4]);
    assert_eq!(removed, vec![1, 5]);
    let (a2, r2) = browsy::session::diff_elements(&old, &old);
    assert!(a2.is_empty() && r2.is_empty());
}

#[test]
fn form_state_is_shown_on_elements() {
    let mut box_on = el(2, "input", Some("checkbox"), None, Some("checkbox"));
    box_on.checked = Some(true);
    let mut field = el(1, "input", Some("textbox"), None, Some("text"));
    field.val = Some(s("page value"));
    let other = el(3, "input", Some("checkbox"), None, Some("checkbox"));
    let untouched = el(4, "a", Some("link"), Some("Home"), None);
    let mut els = vec![field, box_on, other, untouched];
    let mut form = FormState::new();
    form.set_value(1, "typed");
    form.uncheck(2);
    form.check(3);
    show_form_state(&mut els, &form);
    assert_eq!(els[0].val.as_deref(), Some("typed"));
    assert_eq!(els[1].checked, Some(false));
    assert_eq!(els[2].checked, Some(true));
    assert_eq!(els[2].val, None);
    assert_eq!(els[3].val, None);
    assert_eq!(els[3].checked, None);
    assert_eq!(els[3].text.as_deref(), Some("Home"));
}

fn field(name: &str, value: Option<&str>, ty: &str, checked: bool) -> FormField {
    FormField { name: Some(s(name)), value: value.map(s), field_type: s(ty), checked }
}

fn login_forms() -> Vec<FormInfo> {
    vec![
        FormInfo {
            action: Some(s("/search")),
            method: None,
            fields: vec![field("q", None, "text", false)],
            buttons: vec![FormButton { name: None, value: None, formaction: None, text: Some(s("Go")) }],
        },
        FormInfo {
            action: Some(s("/login")),
            method: Some(s("POST")),
            fields: vec![
                field("user", Some("guest"), "text", false),
                field("news", Some("yes"), "checkbox", true),
                field("remember", None, "checkbox", false),
            ],
            buttons: vec![FormButton {
                name: Some(s("signin")),
                value: None,
                formaction: Some(s("/session/new")),
                text: Some(s("Sign in")),
            }],
        },
    ]
}

#[test]
fn submissions_follow_the_clicked_button() {
    let mut user = el(1, "input", Some("textbox"), None, Some("text"));
    user.name = Some(s("user"));
    let mut remember = el(2, "input", Some("checkbox"), None, Some("checkbox"));
    remember.name = Some(s("remember"));
    let mut signin = el(3, "button", Some("button"), Some("Sign in"), None);
    signin.name = Some(s("signin"));
    let go = el(4, "button", Some("button"), Some("Go"), None);
    let mut news = el(5, "input", Some("checkbox"), None, Some("checkbox"));
    news.name = Some(s("news"));
    let els = vec![user, remember, signin, go, news];
    let mut form = FormState::new();
    form.set_value(1, "alice");
    // A box unchecked in the page and checked in the session is added.
    form.check(2);

    let plan = plan_submission(&login_forms(), &els, 3, "https://example.com/a/b", &form).unwrap();
    assert!(plan.post);
    assert_eq!(plan.target.href, "https://example.com/session/new");
    assert_eq!(plan.data, vec![(s("user"), s("alice")), (s("news"), s("yes")), (s("remember"), s("on"))]);
    form.uncheck(5);
    form.uncheck(2);
    let plan = plan_submission(&login_forms(), &els, 3, "https://example.com/a/b", &form).unwrap();
    assert_eq!(plan.data, vec![(s("user"), s("alice"))]);

    let plan = plan_submission(&login_forms(), &els, 4, "https://example.com/a/b", &form).unwrap();
    assert!(!plan.post);
    assert_eq!(plan.target.href, "https://example.com/search");
    assert_eq!(plan.data, vec![(s("q"), s(""))]);

    let missing = plan_submission(&login_forms(), &els, 9, "https://example.com/", &form);
    assert_eq!(action_message(missing.map(|_| ())), "Button 9 not found");
    let none = plan_submission(&Vec::new(), &els, 3, "https://example.com/", &form);
    assert_eq!(action_message(none.map(|_| ())), "No form found on page");
    assert!(matches!(plan_submission(&login_forms(), &els, 3, "not a url", &form),
        Err(FetchError::InvalidUrl(_))));
}

#[test]
fn typed_value_after_unchecked_box_is_submitted() {
    let dom = parse_html(
        r#"<html><body><form method="post" action="/login">
            <input type="checkbox" name="agree">
            <input type="text" name="user">
            <button>Log in</button>
        </form></body></html>"#,
    );
    let forms = extract_forms(&dom);
    let mut agree = el(1, "input", Some("checkbox"), None, Some("checkbox"));
    agree.name = Some(s("agree"));
    let mut user = el(2, "input", Some("textbox"), None, Some("text"));
    user.name = Some(s("user"));
    let button = el(3, "button", Some("button"), Some("Log in"), None);
    let els = vec![agree, user, button];
    let mut form = FormState::new();
    form.set_value(2, "bob");
    let plan = plan_submission(&forms, &els, 3, "https://example.com/start", &form).unwrap();
    assert!(plan.post);
    assert_eq!(plan.target.href, "https://example.com/login");
    assert_eq!(plan.data, vec![(s("user"), s("bob"))]);
}
