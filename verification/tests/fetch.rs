//! URL rules, retries, block pages, stylesheets to fetch and forms.

use browsy::fetch::{
    attempt_user_agent, button_formaction, check_url, css_link_target, default_blocked_patterns,
    default_form_data, extract_forms, find_form_index_for_button, is_inert_href,
    is_local_hostname, is_private_ipv4, is_private_ipv6, is_retryable_status, looks_blocked,
    matches_blocked_pattern, next_retry_step, parse_retry_after, resolve_url, retry_delay_ms,
    stylesheet_links, CssBudget, FetchError, RetryStep, UrlHost,
};
use browsy::html::parse_html;

fn s(v: &str) -> String {
    v.to_string()
}

#[test]
fn error_messages() {
    assert_eq!(FetchError::HttpError(404).message(), "HTTP error: 404");
    assert_eq!(FetchError::InvalidUrl(s("x")).message(), "Invalid URL: x");
    assert_eq!(FetchError::BlockedUrl(s("http://a/")).message(), "Blocked URL: http://a/");
    assert_eq!(FetchError::Network(s("down")).message(), "Network error: down");
    assert_eq!(FetchError::ActionError(s("no")).message(), "Action error: no");
    assert_eq!(
        FetchError::ResponseTooLarge(2048, 1024).message(),
        "Response too large: 2048 bytes (max 1024)"
    );
}

#[test]
fn public_urls_pass() {
    let p = check_url("https://Example.com/a?b=1", false, false).unwrap();
    assert_eq!(p.href, "https://example.com/a?b=1");
    assert_eq!(p.scheme, "https");
    assert!(matches!(p.host, Some(UrlHost::Domain(ref d)) if d == "example.com"));
}

#[test]
fn private_and_local_urls_are_blocked() {
    for u in ["http://127.0.0.1/", "http://10.1.2.3/x", "http://192.168.0.1/", "http://[::1]/",
        "http://localhost:8080/", "http://printer.local/"] {
        match check_url(u, false, false) {
            Err(FetchError::BlockedUrl(_)) => {}
            other => panic!("{u}: {:?}", other.map(|p| p.href)),
        }
        assert!(check_url(u, true, false).is_ok());
    }
    match check_url("http://127.0.0.1/", false, false) {
        Err(FetchError::BlockedUrl(h)) => assert_eq!(h, "http://127.0.0.1/"),
        _ => panic!("expected a blocked URL"),
    }
}

#[test]
fn other_schemes_and_garbage() {
    assert!(matches!(check_url("ftp://example.com/", true, false), Err(FetchError::BlockedUrl(_))));
    assert!(check_url("ftp://example.com/", true, true).is_ok());
    assert!(matches!(check_url("not a url", false, false), Err(FetchError::InvalidUrl(_))));
}

#[test]
fn address_ranges() {
    assert!(is_private_ipv4([172, 16, 0, 1]));
    assert!(!is_private_ipv4([172, 32, 0, 1]));
    assert!(is_private_ipv4([100, 64, 0, 1]));
    assert!(is_private_ipv4([224, 0, 0, 1]));
    assert!(!is_private_ipv4([8, 8, 8, 8]));
    assert!(is_private_ipv6([0xfd00, 0, 0, 0, 0, 0, 0, 1]));
    assert!(is_private_ipv6([0xfe80, 0, 0, 0, 0, 0, 0, 1]));
    assert!(!is_private_ipv6([0x2001, 0x4860, 0, 0, 0, 0, 0, 0x8888]));
    assert!(is_local_hostname("LOCALHOST"));
    assert!(is_local_hostname("app.localhost"));
    assert!(!is_local_hostname("localhost.com"));
}

#[test]
fn references_resolve_against_the_page() {
    assert_eq!(resolve_url(Some("https://a.com/x/y"), "../z"), "https://a.com/z");
    assert_eq!(resolve_url(Some("https://a.com/x/y"), "q?p=1"), "https://a.com/x/q?p=1");
    assert_eq!(resolve_url(None, "/rel"), "/rel");
}

#[test]
fn stylesheet_targets() {
    let pats = default_blocked_patterns();
    assert!(pats.contains(&s("googletagmanager.com")));
    assert!(matches_blocked_pattern("https://www.google-analytics.com/a.css", &pats));
    assert!(!matches_blocked_pattern("https://example.com/a.css", &pats));
    assert_eq!(
        css_link_target("https://a.com/p/", "/s.css", &pats, false, false),
        Some(s("https://a.com/s.css"))
    );
    assert_eq!(css_link_target("https://a.com/", "https://fonts.googleapis.com/x.css", &pats,
        false, false), None);
    assert_eq!(css_link_target("https://a.com/", "http://127.0.0.1/x.css", &pats, false, false),
        None);
    let dom = parse_html(
        "<html><head><link rel=\"stylesheet\" href=\"/a.css\"><link rel=\"icon\" href=\"/f.ico\">\
         <link rel=\"Stylesheet\" href=\"b.css\"></head><body></body></html>",
    );
    assert_eq!(stylesheet_links(&dom), vec![s("/a.css"), s("b.css")]);
}

#[test]
fn css_budget() {
    let mut b = CssBudget { remaining: 100 };
    assert_eq!(b.next_limit(64), 64);
    b.spend(64);
    assert_eq!(b.remaining, 36);
    assert_eq!(b.next_limit(64), 36);
    b.spend(1000);
    assert_eq!(b.remaining, 0);
    assert_eq!(b.next_limit(64), 0);
}

#[test]
fn retry_delays() {
    assert_eq!(retry_delay_ms(100, 0, None), 100);
    assert_eq!(retry_delay_ms(100, 3, None), 800);
    assert_eq!(retry_delay_ms(100, 10, None), 6400);
    assert_eq!(retry_delay_ms(10, 0, None), 50);
    assert_eq!(retry_delay_ms(1000, 6, None), 30000);
    assert_eq!(retry_delay_ms(100, 0, Some(5)), 5000);
    assert_eq!(retry_delay_ms(10_000, 2, Some(1)), 30000);
    assert_eq!(retry_delay_ms(100, 0, Some(u64::MAX)), u64::MAX);
    assert_eq!(parse_retry_after(" 12 "), Some(12));
    assert_eq!(parse_retry_after("Wed, 21 Oct 2015 07:28:00 GMT"), None);
}

#[test]
fn retry_decisions() {
    assert!(is_retryable_status(429));
    assert!(is_retryable_status(503));
    assert!(!is_retryable_status(404));
    assert_eq!(next_retry_step(100, 0, 3, false, 503, Some(2), "", true), RetryStep::Retry(2000));
    assert_eq!(next_retry_step(100, 1, 3, false, 429, None, "", true), RetryStep::Retry(200));
    assert_eq!(next_retry_step(100, 2, 3, false, 429, None, "", true), RetryStep::Fail(429));
    assert_eq!(next_retry_step(100, 0, 3, false, 404, None, "", true), RetryStep::Fail(404));
    assert_eq!(next_retry_step(100, 0, 3, true, 200, Some(9), "Please solve the CAPTCHA", true),
        RetryStep::Retry(100));
    assert_eq!(next_retry_step(100, 0, 3, true, 200, None, "Please solve the CAPTCHA", false),
        RetryStep::Accept);
    assert_eq!(next_retry_step(100, 0, 3, true, 200, None, "<p>hello</p>", true),
        RetryStep::Accept);
    let agents = vec![s("ua-1"), s("ua-2")];
    assert_eq!(attempt_user_agent(&agents, 1, "default"), "ua-2");
    assert_eq!(attempt_user_agent(&agents, 2, "default"), "default");
}

#[test]
fn block_pages_and_inert_links() {
    assert!(looks_blocked("<title>Access Denied</title>"));
    assert!(looks_blocked("checking your browser - Cloudflare"));
    assert!(!looks_blocked("<p>welcome</p>"));
    assert!(is_inert_href("  JavaScript:void(0)"));
    assert!(is_inert_href("#top"));
    assert!(is_inert_href("mailto:a@b.c"));
    assert!(!is_inert_href("/page#top"));
}

#[test]
fn forms_are_read() {
    let html = r#"<html><body>
        <form action="/login" method="post">
            <input name="user" value="bob">
            <input type="password" name="pw">
            <input type="checkbox" name="keep" checked>
            <input type="radio" name="r" value="x">
            <select name="lang"><option value="en">English</option><option value="fr" selected>French</option></select>
            <textarea name="note">hi there</textarea>
            <input type="submit" name="go" value="Sign in" formaction="/alt">
        </form>
        <form><button name="b2">Search</button></form>
    </body></html>"#;
    let dom = parse_html(html);
    let forms = extract_forms(&dom);
    assert_eq!(forms.len(), 2);
    let f = &forms[0];
    assert_eq!(f.action.as_deref(), Some("/login"));
    assert_eq!(f.method.as_deref(), Some("post"));
    assert_eq!(f.fields.len(), 6);
    assert_eq!(f.fields[0].field_type, "text");
    assert!(f.fields[2].checked);
    assert!(!f.fields[3].checked);
    assert_eq!(f.fields[4].value.as_deref(), Some("fr"));
    assert_eq!(f.fields[5].value.as_deref(), Some("hi there"));
    assert_eq!(f.buttons.len(), 1);
    assert_eq!(forms[1].buttons[0].text.as_deref(), Some("Search"));
    assert_eq!(
        default_form_data(f),
        vec![(s("user"), s("bob")), (s("pw"), s("")), (s("keep"), s("on")), (s("lang"), s("fr")),
            (s("note"), s("hi there"))]
    );
    assert_eq!(find_form_index_for_button(&forms, Some("b2"), None), 1);
    assert_eq!(find_form_index_for_button(&forms, None, Some("Sign in")), 0);
    assert_eq!(find_form_index_for_button(&forms, Some("zz"), Some("zz")), 0);
    assert_eq!(button_formaction(f, Some("go"), None), Some(s("/alt")));
}

#[test]
fn response_size_verdicts() {
    assert!(browsy::fetch::check_response_size(10, 10).is_ok());
    match browsy::fetch::check_response_size(11, 10) {
        Err(FetchError::ResponseTooLarge(found, max)) => assert_eq!((found, max), (11, 10)),
        _ => panic!("expected too large"),
    }
}

#[test]
fn element_links_become_absolute() {
    let mk = |id: u32, href: Option<&str>| browsy::output::SpatialElement {
        id,
        tag: s("a"),
        role: None,
        text: Some(s("x")),
        ph: None,
        href: href.map(s),
        val: None,
        input_type: None,
        name: None,
        label: None,
        checked: None,
        disabled: None,
        required: None,
        hidden: None,
        b: [0, 0, 1, 1],
    };
    let mut els = vec![mk(1, Some("/a")), mk(2, None), mk(3, Some("https://other.org/b"))];
    browsy::fetch::resolve_element_urls(&mut els, "https://site.com/dir/page");
    assert_eq!(els[0].href.as_deref(), Some("https://site.com/a"));
    assert_eq!(els[1].href, None);
    assert_eq!(els[2].href.as_deref(), Some("https://other.org/b"));
    assert_eq!(els[2].id, 3);
}
