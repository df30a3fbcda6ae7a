//! What the server and tool front ends compute from a page.

use browsy::fetch::FetchError;
use browsy::frontend::{engine_from_param, error_status, find_elements, format_page_text,
    scope_positions, ServerConfig};
use browsy::output::SpatialElement;
use browsy::search::SearchEngine;

fn s(v: &str) -> String {
    v.to_string()
}

fn el(id: u32, tag: &str, role: &str, text: Option<&str>) -> SpatialElement {
    SpatialElement {
        id,
        tag: s(tag),
        role: Some(s(role)),
        text: text.map(s),
        ph: None,
        href: None,
        val: None,
        input_type: None,
        name: None,
        label: None,
        checked: None,
        disabled: None,
        required: None,
        hidden: None,
        b: [1, 2, 3, 4],
    }
}

#[test]
fn server_defaults() {
    let c = ServerConfig::default();
    assert_eq!(c.port, 3847);
    assert_eq!(c.session_timeout_secs, 1800);
    assert!(!c.allow_private_network);
}

#[test]
fn engines() {
    assert_eq!(engine_from_param(Some("google")), SearchEngine::Google);
    assert_eq!(engine_from_param(Some("Google")), SearchEngine::DuckDuckGo);
    assert_eq!(engine_from_param(None), SearchEngine::DuckDuckGo);
}

#[test]
fn error_statuses() {
    assert_eq!(error_status(&FetchError::InvalidUrl(s("x"))), 400);
    assert_eq!(error_status(&FetchError::BlockedUrl(s("x"))), 400);
    assert_eq!(error_status(&FetchError::ActionError(s("x"))), 400);
    assert_eq!(error_status(&FetchError::Network(s("x"))), 500);
    assert_eq!(error_status(&FetchError::HttpError(404)), 500);
    assert_eq!(error_status(&FetchError::ResponseTooLarge(9, 1)), 500);
}

#[test]
fn page_text() {
    let els = vec![el(1, "a", "link", Some("Home"))];
    assert_eq!(
        format_page_text("T", "https://x/", &els),
        "title: T\nurl: https://x/\nels: 1\n---\n[1:a \"Home\" @1,2 3x4]"
    );
}

#[test]
fn find_by_text_then_role_without_repeats() {
    let els = vec![
        el(1, "a", "link", Some("Login here")),
        el(2, "button", "button", Some("Login")),
        el(3, "button", "button", Some("Cancel")),
        el(4, "h1", "heading", Some("Welcome")),
    ];
    assert_eq!(find_elements(&els, Some("Login"), Some("button")), vec![0, 1, 2]);
    assert_eq!(find_elements(&els, Some("Welcome"), None), vec![3]);
    assert_eq!(find_elements(&els, None, Some("heading")), vec![3]);
    assert!(find_elements(&els, None, None).is_empty());
}

#[test]
fn scope_filters_elements() {
    let mut hidden = el(1, "a", "link", Some("Hidden"));
    hidden.hidden = Some(true);
    let mut low = el(2, "button", "button", Some("Low"));
    low.b = [0, 900, 10, 10];
    let top = el(3, "a", "link", Some("Top"));
    let els = vec![hidden, low, top];
    assert_eq!(scope_positions(&els, None, 800), vec![0, 1, 2]);
    assert_eq!(scope_positions(&els, Some("all"), 800), vec![0, 1, 2]);
    assert_eq!(scope_positions(&els, Some("visible"), 800), vec![1, 2]);
    assert_eq!(scope_positions(&els, Some("above_fold"), 800), vec![0, 2]);
    assert_eq!(scope_positions(&els, Some("visible_above_fold"), 800), vec![2]);
}
