//! The spatial DOM: roles, text, ids and the compact form.

use browsy::dom::NodeType;
use browsy::output::{
    collect_visible_text, determine_role, find_title, spatial_elements, to_compact_string,
    BoxNode, SpatialElement,
};

fn s(v: &str) -> String {
    v.to_string()
}

fn node(tag: &str, attrs: &[(&str, &str)], children: Vec<BoxNode>, b: [i32; 4]) -> BoxNode {
    BoxNode {
        tag: s(tag),
        attributes: attrs.iter().map(|(k, v)| (s(k), s(v))).collect(),
        text: String::new(),
        text_content: String::new(),
        node_type: NodeType::Element,
        hidden: false,
        empty: false,
        b,
        children,
    }
}

fn text(t: &str) -> BoxNode {
    BoxNode {
        tag: String::new(),
        attributes: Vec::new(),
        text: s(t),
        text_content: String::new(),
        node_type: NodeType::Text,
        hidden: false,
        empty: false,
        b: [0, 0, 0, 0],
        children: Vec::new(),
    }
}

#[test]
fn roles() {
    let none: Vec<(String, String)> = Vec::new();
    assert_eq!(determine_role("a", &none), Some(s("link")));
    assert_eq!(determine_role("h3", &none), Some(s("heading")));
    assert_eq!(determine_role("input", &none), Some(s("textbox")));
    assert_eq!(determine_role("input", &vec![(s("type"), s("search"))]), Some(s("searchbox")));
    assert_eq!(determine_role("input", &vec![(s("type"), s("submit"))]), Some(s("button")));
    assert_eq!(determine_role("div", &vec![(s("role"), s("dialog"))]), Some(s("dialog")));
    assert_eq!(determine_role("div", &none), None);
}

#[test]
fn visible_text_and_title() {
    let p = node("p", &[], vec![text("  Hello "), node("b", &[], vec![text("world ")], [0; 4]),
        text("\n")], [0; 4]);
    assert_eq!(collect_visible_text(&p), "Hello world");
    let doc = node("html", &[], vec![
        node("head", &[], vec![node("title", &[], vec![text("  ")], [0; 4]),
            node("title", &[], vec![text(" My Page ")], [0; 4])], [0; 4]),
        node("body", &[], vec![p], [0; 4]),
    ], [0; 4]);
    assert_eq!(find_title(&doc), Some(s("My Page")));
    assert_eq!(find_title(&node("div", &[], vec![], [0; 4])), None);
}

fn sample() -> BoxNode {
    let mut hidden = node("div", &[], vec![node("a", &[("href", "/secret")], vec![text("Secret")],
        [0; 4])], [0; 4]);
    hidden.hidden = true;
    let mut empty = node("span", &[], vec![node("button", &[], vec![text("Go")], [5, 6, 7, 8])],
        [0; 4]);
    empty.empty = true;
    node("body", &[], vec![
        node("h1", &[], vec![text("Title")], [0, 0, 100, 20]),
        hidden,
        node("input", &[("type", "email"), ("placeholder", "you@x")], vec![], [10, 30, 200, 24]),
        empty,
        node("a", &[("href", "/next")], vec![text("Next")], [-1, 2, 3, 4]),
    ], [0, 0, 800, 600])
}

#[test]
fn ids_are_consecutive_and_hidden_elements_flagged() {
    let els = spatial_elements(&sample());
    let ids: Vec<u32> = els.iter().map(|e| e.id).collect();
    assert_eq!(ids, vec![1, 2, 3, 4, 5]);
    let tags: Vec<&str> = els.iter().map(|e| e.tag.as_str()).collect();
    assert_eq!(tags, vec!["h1", "a", "input", "button", "a"]);
    assert_eq!(els[0].hidden, None);
    assert_eq!(els[1].hidden, Some(true));
    assert_eq!(els[1].text.as_deref(), Some("Secret"));
    assert_eq!(els[2].input_type.as_deref(), Some("email"));
    assert_eq!(els[2].ph.as_deref(), Some("you@x"));
    assert_eq!(els[2].text, None);
    assert_eq!(els[4].href.as_deref(), Some("/next"));
    assert_eq!(els[3].b, [5, 6, 7, 8]);
}

#[test]
fn compact_form() {
    let els: Vec<SpatialElement> = spatial_elements(&sample());
    assert_eq!(
        to_compact_string(&els),
        "[1:h1 \"Title\" @0,0 100x20]\n[!2:a \"Secret\" ->/secret @0,0 0x0]\n\
         [3:input:email \"you@x\" @10,30 200x24]\n[4:button \"Go\" @5,6 7x8]\n\
         [5:a \"Next\" ->/next @-1,2 3x4]"
    );
    assert_eq!(to_compact_string(&Vec::new()), "");
}

#[test]
fn landmarks_carry_no_text() {
    let page = node("body", &[], vec![
        node("nav", &[], vec![node("a", &[("href", "/a")], vec![text("A")], [1, 1, 9, 9])],
            [0, 0, 100, 10]),
        node("div", &[("role", "main")], vec![node("p", &[], vec![text("Body")], [0, 20, 50, 10])],
            [0, 20, 100, 50]),
        node("footer", &[], vec![node("p", &[], vec![text("(c)")], [0, 80, 50, 10])],
            [0, 80, 100, 10]),
    ], [0, 0, 100, 100]);
    let els = spatial_elements(&page);
    let summary: Vec<(&str, Option<&str>, Option<&str>)> =
        els.iter().map(|e| (e.tag.as_str(), e.role.as_deref(), e.text.as_deref())).collect();
    assert_eq!(summary, vec![
        ("nav", Some("navigation"), None),
        ("a", Some("link"), Some("A")),
        ("div", Some("main"), None),
        ("p", None, Some("Body")),
        ("footer", Some("contentinfo"), None),
        ("p", None, Some("(c)")),
    ]);
}

#[test]
fn form_controls_carry_name_label_and_state() {
    let b = [0, 0, 10, 10];
    let page = node("form", &[], vec![
        node("label", &[("for", "mail")], vec![text(" Email Address ")], b),
        node("input", &[("id", "mail"), ("name", "email"), ("type", "email")], vec![], b),
        node("input", &[("type", "checkbox"), ("name", "keep"), ("checked", "")], vec![], b),
        node("input", &[("id", "nolabel"), ("name", "q")], vec![], b),
        node("button", &[("name", "go"), ("disabled", "")], vec![text("Go")], b),
        node("div", &[("aria-hidden", "true")], vec![node("button", &[], vec![text("X")], b)], b),
    ], b);
    let els = spatial_elements(&page);
    assert_eq!(els[0].tag, "label");
    assert_eq!(els[1].name.as_deref(), Some("email"));
    assert_eq!(els[1].label.as_deref(), Some("Email Address"));
    assert_eq!(els[1].checked, None);
    assert_eq!(els[2].checked, Some(true));
    assert_eq!(els[2].label, None);
    assert_eq!(els[3].name.as_deref(), Some("q"));
    assert_eq!(els[3].label, None);
    assert_eq!(els[4].name, None);
    assert_eq!(els[4].disabled, Some(true));
    assert_eq!(els[4].required, None);
    assert_eq!(els[4].hidden, None);
    let x = els.iter().find(|e| e.text.as_deref() == Some("X")).unwrap();
    assert_eq!(x.hidden, Some(true));
}

#[test]
fn textless_links_and_buttons_fall_back() {
    let b = [0, 0, 10, 10];
    let img = |alt: &str| node("img", &[("alt", alt)], vec![], b);
    let page = node("body", &[], vec![
        node("a", &[("href", "/home")], vec![img("Home Page")], b),
        node("a", &[("href", "/search"), ("aria-label", "Search"), ("title", "ignored")], vec![], b),
        node("a", &[("href", "/menu"), ("title", "Open Menu")], vec![], b),
        node("a", &[("href", "/settings")], vec![node("svg", &[], vec![
            node("title", &[], vec![text("Settings")], b)], b)], b),
        node("a", &[("href", "/profile")], vec![node("span", &[], vec![img(""), img("User Profile")], b)], b),
        node("button", &[], vec![img("Close")], b),
        node("a", &[("href", "/about")], vec![text("About Us")], b),
        node("div", &[("onclick", "go()"), ("aria-label", "not used")], vec![], b),
    ], b);
    let els = spatial_elements(&page);
    let texts: Vec<Option<&str>> = els
        .iter()
        .filter(|e| e.tag == "a" || e.tag == "button" || e.tag == "div")
        .map(|e| e.text.as_deref())
        .collect();
    assert_eq!(texts, vec![
        Some("Home Page"),
        Some("Search"),
        Some("Open Menu"),
        Some("Settings"),
        Some("User Profile"),
        Some("Close"),
        Some("About Us"),
        None,
    ]);
}

#[test]
fn ids_count_from_one_and_types_belong_to_inputs() {
    let els = spatial_elements(&sample());
    for (k, e) in els.iter().enumerate() {
        assert_eq!(e.id as usize, k + 1);
        if e.input_type.is_some() {
            assert_eq!(e.tag, "input");
        }
    }
}
