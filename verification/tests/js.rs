//! Behaviour detection and action simulation on parsed pages.

use browsy::dom::DomNode;
use browsy::html::parse_html;
use browsy::js;

#[test]
fn test_js_detect_onclick_toggle() {
    let html = r#"
    <html><body>
        <button onclick="document.getElementById('menu').style.display = 'block'">Open Menu</button>
        <div id="menu" style="display: none;">
            <a href="/profile">Profile</a>
            <a href="/settings">Settings</a>
        </div>
    </body></html>
    "#;

    let dom_tree = parse_html(html);
    let behaviors = js::detect_behaviors(&dom_tree);

    assert!(!behaviors.is_empty());
    match &behaviors[0].action {
        js::JsAction::ToggleVisibility { target } => {
            assert_eq!(target, "#menu");
        }
        other => panic!("Expected ToggleVisibility, got {:?}", other),
    }
}

fn find_panel(node: &DomNode) -> Option<String> {
    if node.get_attr("id") == Some("panel") {
        return node.get_attr("class").map(|s| s.to_string());
    }
    for child in &node.children {
        if let Some(class) = find_panel(child) {
            return Some(class);
        }
    }
    None
}

#[test]
fn test_js_class_toggle() {
    let html = r#"
    <html>
    <head><style>.hidden { display: none; }</style></head>
    <body>
        <button onclick="document.getElementById('panel').classList.toggle('hidden')">Toggle Panel</button>
        <div id="panel" class="hidden">
            <p>Panel content</p>
        </div>
    </body></html>
    "#;

    let dom_tree = parse_html(html);
    let behaviors = js::detect_behaviors(&dom_tree);

    assert!(!behaviors.is_empty());
    match &behaviors[0].action {
        js::JsAction::ToggleClass { target, class } => {
            assert_eq!(target, "#panel");
            assert_eq!(class, "hidden");
        }
        other => panic!("Expected ToggleClass, got {:?}", other),
    }

    let modified = js::apply_action(&dom_tree, &behaviors[0].action);
    let panel_class = find_panel(&modified).unwrap_or_default();
    assert!(!panel_class.contains("hidden"));
}

#[test]
fn test_js_data_toggle_bootstrap() {
    let html = r##"
    <html><body>
        <button data-toggle="collapse" data-target="#navbar">Menu</button>
        <div id="navbar" style="display: none;">
            <a href="/home">Home</a>
        </div>
    </body></html>
    "##;

    let dom_tree = parse_html(html);
    let behaviors = js::detect_behaviors(&dom_tree);

    assert!(!behaviors.is_empty());
    match &behaviors[0].action {
        js::JsAction::ToggleVisibility { target } => {
            assert_eq!(target, "#navbar");
        }
        other => panic!("Expected ToggleVisibility, got {:?}", other),
    }
}

#[test]
fn test_js_aria_controls() {
    let html = r#"
    <html><body>
        <button aria-expanded="false" aria-controls="details-panel">Show Details</button>
        <div id="details-panel" style="display: none;">
            <p>Detailed information here</p>
        </div>
    </body></html>
    "#;

    let dom_tree = parse_html(html);
    let behaviors = js::detect_behaviors(&dom_tree);

    assert!(!behaviors.is_empty());
    match &behaviors[0].action {
        js::JsAction::ToggleVisibility { target } => {
            assert_eq!(target, "#details-panel");
        }
        other => panic!("Expected ToggleVisibility, got {:?}", other),
    }
}

#[test]
fn test_js_tab_detection() {
    let html = r#"
    <html><body>
        <div role="tablist">
            <button role="tab" aria-controls="tab1-panel" aria-selected="true">Tab 1</button>
            <button role="tab" aria-controls="tab2-panel" aria-selected="false">Tab 2</button>
        </div>
        <div id="tab1-panel" role="tabpanel">
            <p>Content for tab 1</p>
        </div>
        <div id="tab2-panel" role="tabpanel" style="display: none;">
            <p>Content for tab 2</p>
        </div>
    </body></html>
    "#;

    let dom_tree = parse_html(html);

    let tab_groups = js::detect_tab_groups(&dom_tree);
    assert_eq!(tab_groups.len(), 1);
    assert_eq!(tab_groups[0].tabs.len(), 2);
    assert_eq!(tab_groups[0].tabs[0].label, "Tab 1");
    assert!(tab_groups[0].tabs[0].selected);
    assert!(!tab_groups[0].tabs[1].selected);

    let behaviors = js::detect_behaviors(&dom_tree);
    let tab_behaviors: Vec<_> = behaviors
        .iter()
        .filter(|b| matches!(&b.action, js::JsAction::TabSwitch { .. }))
        .collect();
    assert_eq!(tab_behaviors.len(), 2);
}

fn flatten(node: &DomNode, out: &mut Vec<(String, Vec<(String, String)>, String)>) {
    out.push((node.tag.clone(), node.attributes.clone(), node.text.clone()));
    for c in &node.children {
        flatten(c, out);
    }
}

fn snapshot(node: &DomNode) -> Vec<(String, Vec<(String, String)>, String)> {
    let mut out = Vec::new();
    flatten(node, &mut out);
    out
}

#[test]
fn actions_on_missing_targets_change_nothing() {
    let dom_tree = parse_html(
        r#"<html><body><div id="a" class="x" style="display: none;">A</div></body></html>"#,
    );
    let before = snapshot(&dom_tree);
    let toggled = js::apply_action(&dom_tree, &js::JsAction::ToggleVisibility { target: "#nope".to_string() });
    assert_eq!(snapshot(&toggled), before);
    let classed = js::apply_action(
        &dom_tree,
        &js::JsAction::ToggleClass { target: "#nope".to_string(), class: "x".to_string() },
    );
    assert_eq!(snapshot(&classed), before);
    let nav = js::apply_action(&dom_tree, &js::JsAction::Navigate { url: "/x".to_string() });
    assert_eq!(snapshot(&nav), before);
}

#[test]
fn hiding_twice_is_hiding_once() {
    let dom_tree = parse_html(
        r#"<html><body><div id="p1" style="color: red">One</div><div id="p2">Two</div></body></html>"#,
    );
    let hide = js::JsAction::TabSwitch {
        show_target: "p2".to_string(),
        hide_targets: vec!["p1".to_string()],
    };
    let once = js::apply_action(&dom_tree, &hide);
    let twice = js::apply_action(&once, &hide);
    assert_eq!(snapshot(&twice), snapshot(&once));
    assert_ne!(snapshot(&once), snapshot(&dom_tree));
}

#[test]
fn actions_keep_the_tree_shape() {
    let dom_tree = parse_html(
        r#"<html><body><div id="a" class="x">A<span id="b">B</span></div><p id="c">C</p></body></html>"#,
    );
    let before = snapshot(&dom_tree);
    let after = js::apply_action(&dom_tree, &js::JsAction::ToggleClass {
        target: "#a".to_string(),
        class: "y".to_string(),
    });
    let now = snapshot(&after);
    assert_eq!(now.len(), before.len());
    for (x, y) in before.iter().zip(now.iter()) {
        assert_eq!(x.0, y.0);
        assert_eq!(x.2, y.2);
        let targeted = x.1.iter().any(|(k, v)| k == "id" && v == "a");
        if !targeted {
            assert_eq!(x.1, y.1);
        }
    }
    assert_ne!(now, before);
}

fn hidden_flags(node: &DomNode, out: &mut Vec<bool>) {
    let style = node.get_attr("style").unwrap_or("");
    out.push(style.contains("display: none") || style.contains("display:none") || node.get_attr("hidden").is_some());
    for c in &node.children {
        hidden_flags(c, out);
    }
}

fn find_a(n: &DomNode, out: &mut Vec<String>) {
    if n.get_attr("id") == Some("a") {
        out.extend(n.get_attr("class").unwrap_or("").split_whitespace().map(|s| s.to_string()));
    }
    for c in &n.children {
        find_a(c, out);
    }
}

#[test]
fn toggling_twice_restores_visibility_and_classes() {
    let dom_tree = parse_html(
        r#"<html><body><div id="a" class="x y" style="color: red">A</div><div id="b" hidden>B</div></body></html>"#,
    );
    let mut before = Vec::new();
    hidden_flags(&dom_tree, &mut before);
    for target in ["#a", "#b"] {
        let act = js::JsAction::ToggleVisibility { target: target.to_string() };
        let once = js::apply_action(&dom_tree, &act);
        let twice = js::apply_action(&once, &act);
        let mut mid = Vec::new();
        hidden_flags(&once, &mut mid);
        assert_ne!(mid, before);
        let mut after = Vec::new();
        hidden_flags(&twice, &mut after);
        assert_eq!(after, before);
    }
    for class in ["x", "z"] {
        let act = js::JsAction::ToggleClass { target: "a".to_string(), class: class.to_string() };
        let twice = js::apply_action(&js::apply_action(&dom_tree, &act), &act);
        let mut names: Vec<String> = Vec::new();
        find_a(&twice, &mut names);
        names.sort();
        assert_eq!(names, vec!["x".to_string(), "y".to_string()]);
    }
}

fn attrs_of_a(n: &DomNode, out: &mut Vec<(String, String)>) {
    if n.get_attr("id") == Some("a") {
        out.extend(n.attributes.iter().cloned());
    }
    for c in &n.children {
        attrs_of_a(c, out);
    }
}

fn pick(n: &DomNode) -> Vec<(String, String)> {
    let mut out = Vec::new();
    attrs_of_a(n, &mut out);
    out
}

#[test]
fn targeted_elements_change_only_the_attributes_an_action_is_about() {
    let dom_tree = parse_html(
        r#"<html><body><div id="a" class="x" title="t" style="color: red">A</div></body></html>"#,
    );
    let before = pick(&dom_tree);
    let hidden = pick(&js::apply_action(&dom_tree, &js::JsAction::ToggleVisibility { target: "#a".to_string() }));
    let classed = pick(&js::apply_action(
        &dom_tree,
        &js::JsAction::ToggleClass { target: "#a".to_string(), class: "y".to_string() },
    ));
    for (k, v) in &before {
        if k != "style" && k != "hidden" {
            assert!(hidden.contains(&(k.clone(), v.clone())));
        }
        if k != "class" {
            assert!(classed.contains(&(k.clone(), v.clone())));
        }
    }
    assert!(!hidden.contains(&("style".to_string(), "color: red".to_string())));
    assert!(!classed.contains(&("class".to_string(), "x".to_string())));
}
