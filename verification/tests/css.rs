//! Selectors, stylesheets, the cascade and property values.

use browsy::dom::DomNode;
use browsy::html::parse_html;
use browsy::properties::{
    expand_repeats, grid_placement_overflows, parse_declarations, parse_grid_placement,
    resolve_vars,
};
use browsy::selector::{
    extract_rightmost_simple, matches_element, parse_selector, CssRule, RightmostKind,
    SelectorIndex, SelectorPart,
};
use browsy::style::{
    extract_style_tags, get_classes, matched_rules, parse_align_items, parse_align_self,
    parse_box_sizing, parse_display, parse_flex_direction, parse_flex_flow, parse_flex_wrap,
    parse_justify_content, parse_overflow, parse_place_items, parse_position, parse_visibility,
    AlignItems, AlignSelf, BoxSizing, Display, FlexDirection, FlexWrap, JustifyContent, Overflow,
    Position, Visibility,
};
use browsy::stylesheet::{
    media_conditions, parse_media_query, parse_style_items, select_rules, strip_comments,
    MediaFeature, MediaQuery, StyleItem,
};

fn s(v: &str) -> String {
    v.to_string()
}

fn rule(sel: &str, decls: &str) -> CssRule {
    let selector = parse_selector(sel).expect("selector");
    let specificity = selector.specificity;
    CssRule { selectors: vec![selector], declarations: s(decls), specificity }
}

fn find_tag<'a>(n: &'a DomNode, tag: &str, out: &mut Option<&'a DomNode>) {
    if n.tag == tag && out.is_none() {
        *out = Some(n);
    }
    for c in &n.children {
        find_tag(c, tag, out);
    }
}

#[test]
fn selector_specificity_weights() {
    assert_eq!(parse_selector("#a .b div").unwrap().specificity, 111);
    assert_eq!(parse_selector("div").unwrap().specificity, 1);
    assert_eq!(parse_selector(".x.y").unwrap().specificity, 20);
    assert_eq!(parse_selector("a:hover").unwrap().specificity, 11);
    assert_eq!(parse_selector("input[type=\"text\"]").unwrap().specificity, 11);
    assert_eq!(parse_selector("*").unwrap().specificity, 0);
}

#[test]
fn selector_blank_is_none() {
    assert!(parse_selector("").is_none());
    assert!(parse_selector("   ").is_none());
}

#[test]
fn selector_parts_of_child_combinator() {
    let sel = parse_selector("DIV > p").unwrap();
    assert_eq!(sel.parts.len(), 3);
    assert!(matches!(&sel.parts[0], SelectorPart::Tag(t) if t == "div"));
    assert!(matches!(&sel.parts[1], SelectorPart::Child));
    assert!(matches!(&sel.parts[2], SelectorPart::Tag(t) if t == "p"));
}

#[test]
fn selector_descendant_and_pseudo_arguments() {
    let sel = parse_selector("ul li:not(.x)").unwrap();
    assert_eq!(sel.parts.len(), 4);
    assert!(matches!(&sel.parts[1], SelectorPart::Descendant));
    assert!(matches!(&sel.parts[3], SelectorPart::PseudoClass(p) if p == "not"));
    assert_eq!(sel.specificity, 12);
}

#[test]
fn selector_matching_descendant_and_child() {
    let no_attrs: Vec<(String, String)> = Vec::new();
    let anc = vec![(s("ul"), vec![s("menu")], None), (s("div"), vec![], Some(s("wrap")))];
    let li_desc = parse_selector("ul li").unwrap();
    assert!(matches_element(&li_desc, "li", &[], None, &no_attrs, &anc));
    let li_child = parse_selector("ul > li").unwrap();
    assert!(!matches_element(&li_child, "li", &[], None, &no_attrs, &anc));
    let div_child = parse_selector("#wrap > li").unwrap();
    assert!(matches_element(&div_child, "li", &[], None, &no_attrs, &anc));
    let cls = parse_selector(".menu li").unwrap();
    assert!(matches_element(&cls, "li", &[], None, &no_attrs, &anc));
    assert!(!matches_element(&cls, "p", &[], None, &no_attrs, &anc));
}

#[test]
fn selector_matching_attributes() {
    let attrs = vec![(s("type"), s("submit")), (s("href"), s("/docs/page.html"))];
    let anc: Vec<(String, Vec<String>, Option<String>)> = Vec::new();
    let exact = parse_selector("[type=\"submit\"]").unwrap();
    assert!(matches_element(&exact, "button", &[], None, &attrs, &anc));
    let prefix = parse_selector("a[href^=\"/docs\"]").unwrap();
    assert!(matches_element(&prefix, "a", &[], None, &attrs, &anc));
    let suffix = parse_selector("a[href$='.pdf']").unwrap();
    assert!(!matches_element(&suffix, "a", &[], None, &attrs, &anc));
    let exists = parse_selector("[disabled]").unwrap();
    assert!(!matches_element(&exists, "a", &[], None, &attrs, &anc));
}

#[test]
fn rightmost_simple_kinds() {
    assert!(matches!(extract_rightmost_simple(&parse_selector("div .a #b").unwrap()),
        RightmostKind::Id(i) if i == "b"));
    assert!(matches!(extract_rightmost_simple(&parse_selector("div .a").unwrap()),
        RightmostKind::Class(c) if c == "a"));
    assert!(matches!(extract_rightmost_simple(&parse_selector("nav a").unwrap()),
        RightmostKind::Tag(t) if t == "a"));
    assert!(matches!(extract_rightmost_simple(&parse_selector("[hidden]").unwrap()),
        RightmostKind::Universal));
}

#[test]
fn index_candidates_are_sorted_and_complete() {
    let rules = vec![rule("p", "a: 1"), rule(".x", "b: 2"), rule("#y", "c: 3"), rule("*", "d: 4"),
        rule("div", "e: 5")];
    let idx = SelectorIndex::build(&rules);
    let got = idx.candidates_for("p", &[s("x")], Some("y"));
    assert_eq!(got, vec![0, 1, 2, 3]);
    let got = idx.candidates_for("div", &[], None);
    assert_eq!(got, vec![3, 4]);
}

#[test]
fn cascade_orders_by_specificity_then_position() {
    let rules = vec![rule("#main", "color: red"), rule("p", "color: blue"), rule(".t", "color: green"),
        rule("p", "margin: 0")];
    let idx = SelectorIndex::build(&rules);
    let attrs: Vec<(String, String)> = Vec::new();
    let anc: Vec<(String, Vec<String>, Option<String>)> = Vec::new();
    let m = matched_rules(&rules, &idx, "p", &[s("t")], Some("main"), &attrs, &anc);
    assert_eq!(m, vec![1, 3, 2, 0]);
    let m = matched_rules(&rules, &idx, "span", &[], None, &attrs, &anc);
    assert!(m.is_empty());
}

#[test]
fn comments_are_stripped() {
    assert_eq!(strip_comments("a /* x */b"), "a b");
    assert_eq!(strip_comments("/* open"), "");
    assert_eq!(strip_comments("plain"), "plain");
}

#[test]
fn stylesheet_items_split_selector_lists() {
    let items = parse_style_items("h1, h2 { color: red; } .x{margin:0}");
    assert_eq!(items.len(), 3);
    match &items[1] {
        StyleItem::Rule(r) => {
            assert_eq!(r.selectors.len(), 1);
            assert_eq!(r.declarations, "color: red;");
            assert_eq!(r.specificity, 1);
        }
        _ => panic!("expected a rule"),
    }
    match &items[2] {
        StyleItem::Rule(r) => assert_eq!(r.specificity, 10),
        _ => panic!("expected a rule"),
    }
}

#[test]
fn stylesheet_media_blocks_follow_their_answers() {
    let css = "p{a:1} @media (max-width: 600px) { .m { b: 2 } } @font-face { x: y } div{c:3}";
    let items = parse_style_items(css);
    let conds = media_conditions(&items);
    assert_eq!(conds, vec![s("(max-width: 600px)")]);
    let kept = select_rules(&items, &vec![true]);
    assert_eq!(kept.len(), 3);
    assert_eq!(kept[1].declarations, "b: 2");
    let dropped = select_rules(&items, &vec![false]);
    assert_eq!(dropped.len(), 2);
    assert_eq!(dropped[1].declarations, "c:3");
}

#[test]
fn keyword_properties() {
    assert_eq!(parse_display("none"), Display::Hidden);
    assert_eq!(parse_display("inline-flex"), Display::InlineFlex);
    assert_eq!(parse_display("table"), Display::Block);
    assert_eq!(parse_visibility("hidden"), Visibility::Hidden);
    assert_eq!(parse_visibility("collapse"), Visibility::Visible);
    assert_eq!(parse_visibility("visible"), Visibility::Visible);
    assert_eq!(parse_position("absolute"), Position::Absolute);
    assert_eq!(parse_position("sticky"), Position::Static);
    assert_eq!(parse_flex_direction("column"), FlexDirection::Column);
    assert_eq!(parse_flex_wrap("wrap"), FlexWrap::Wrap);
    assert_eq!(parse_align_items("center"), AlignItems::Center);
    assert_eq!(parse_place_items("end"), AlignItems::FlexEnd);
    assert_eq!(parse_align_self("stretch"), AlignSelf::Stretch);
    assert_eq!(parse_justify_content("space-between"), JustifyContent::SpaceBetween);
    assert_eq!(parse_overflow("hidden"), Overflow::Hidden);
    assert_eq!(parse_box_sizing("border-box"), BoxSizing::BorderBox);
    assert_eq!(
        parse_flex_flow("column wrap", FlexDirection::Row, FlexWrap::NoWrap),
        (FlexDirection::Column, FlexWrap::Wrap)
    );
}

#[test]
fn style_tags_and_classes() {
    let dom = parse_html(
        "<html><head><style>p{color:red}</style></head><body><p class=\"a  b\">x</p></body></html>",
    );
    // The stylesheet of a `<style>` element reaches the cascade, but it is
    // no text of the page.
    assert_eq!(extract_style_tags(&dom), "p{color:red}\n");
    assert_eq!(dom.text_content(), "x");
    let mut style = DomNode::new_element("style");
    style.children.push(DomNode::new_text("p{color:red}"));
    style.children.push(DomNode::new_text("a{b:c}"));
    let mut head = DomNode::new_element("head");
    head.children.push(style);
    assert_eq!(extract_style_tags(&head), "p{color:red}\na{b:c}\n");
    let mut p: Option<&DomNode> = None;
    find_tag(&dom, "p", &mut p);
    assert_eq!(get_classes(p.unwrap()), vec![s("a"), s("b")]);
}

#[test]
fn declarations_record_custom_properties() {
    let mut custom: Vec<(String, String)> = Vec::new();
    let decls = parse_declarations(
        "--gap: 8px; margin: var(--gap); color: red !important; padding: var(--none, 2px)",
        &mut custom,
    );
    assert_eq!(custom, vec![(s("--gap"), s("8px"))]);
    assert_eq!(
        decls,
        vec![(s("margin"), s("8px")), (s("color"), s("red")), (s("padding"), s("2px"))]
    );
}

#[test]
fn var_references_resolve() {
    let props = vec![(s("--a"), s("var(--b)")), (s("--b"), s("3px"))];
    assert_eq!(resolve_vars("1px var(--a)", &props), "1px 3px");
    assert_eq!(resolve_vars("plain", &props), "plain");
    let cyclic = vec![(s("--x"), s("var(--x)"))];
    assert_eq!(resolve_vars("var(--x)", &cyclic), "");
}

#[test]
fn repeat_expands() {
    assert_eq!(expand_repeats("repeat(3, 1fr)"), "1fr 1fr 1fr");
    assert_eq!(expand_repeats("100px repeat(2, minmax(0, 1fr)) 50px"),
        "100px minmax(0, 1fr) minmax(0, 1fr) 50px");
    assert_eq!(expand_repeats("auto"), "auto");
}

#[test]
fn grid_placements() {
    let g = parse_grid_placement("2 / 4").unwrap();
    assert_eq!((g.start, g.end), (2, 4));
    let g = parse_grid_placement("span 3").unwrap();
    assert_eq!((g.start, g.end), (0, 3));
    let g = parse_grid_placement("1 / span 2").unwrap();
    assert_eq!((g.start, g.end), (1, 3));
    let g = parse_grid_placement("5").unwrap();
    assert_eq!((g.start, g.end), (5, 6));
    assert!(parse_grid_placement("auto").is_none());
    assert!(grid_placement_overflows("32767"));
    assert!(!grid_placement_overflows("3"));
}

#[test]
fn media_queries_are_read() {
    assert!(matches!(parse_media_query("  "), MediaQuery::Always));
    assert!(matches!(parse_media_query("screen"), MediaQuery::Always));
    assert!(matches!(parse_media_query(" print "), MediaQuery::Never));
    match parse_media_query("screen and (min-width: 768px) and (max-width:1024px)") {
        MediaQuery::Features(fs) => {
            assert_eq!(fs.len(), 2);
            assert!(matches!(&fs[0], MediaFeature::Pair(n, v) if n == "min-width" && v == "768px"));
            assert!(matches!(&fs[1], MediaFeature::Pair(n, v) if n == "max-width" && v == "1024px"));
        }
        other => panic!("unexpected {:?}", other),
    }
    match parse_media_query("(orientation: portrait) and color") {
        MediaQuery::Features(fs) => {
            assert_eq!(fs.len(), 2);
            assert!(matches!(&fs[0], MediaFeature::Pair(n, v) if n == "orientation" && v == "portrait"));
            assert!(matches!(&fs[1], MediaFeature::Bare(b) if b == "color"));
        }
        other => panic!("unexpected {:?}", other),
    }
}

#[test]
fn matches_survive_more_distant_ancestors() {
    let no_attrs: Vec<(String, String)> = Vec::new();
    let anc = vec![(s("ul"), vec![], None)];
    let longer = vec![(s("html"), vec![], None), (s("body"), vec![], None), (s("ul"), vec![], None)];
    for text in ["ul li", "ul > li", "li", "body ul li"] {
        let sel = parse_selector(text).unwrap();
        if matches_element(&sel, "li", &[], None, &no_attrs, &anc) {
            assert!(matches_element(&sel, "li", &[], None, &no_attrs, &longer));
        }
    }
    // More ancestors can only add matches.
    let deep = parse_selector("body li").unwrap();
    assert!(!matches_element(&deep, "li", &[], None, &no_attrs, &anc));
    assert!(matches_element(&deep, "li", &[], None, &no_attrs, &longer));
}

#[test]
fn selector_tags_come_out_lower_case() {
    let sel = parse_selector("DIV > Span.a").unwrap();
    assert!(matches!(&sel.parts[0], SelectorPart::Tag(t) if t == "div"));
    assert!(matches!(&sel.parts[2], SelectorPart::Tag(t) if t == "span"));
    assert!(parse_selector("   ").is_none());
}

#[test]
fn each_rule_has_one_selector_with_its_specificity() {
    let items = parse_style_items("/* a { x: y } */ h1, #m .n { color: red; } @font-face { src: x }");
    let rules = select_rules(&items, &Vec::new());
    assert_eq!(rules.len(), 2);
    for r in &rules {
        assert_eq!(r.selectors.len(), 1);
        assert_eq!(r.specificity, r.selectors[0].specificity);
    }
    assert_eq!(rules[1].specificity, 110);
}

#[test]
fn comments_and_other_at_rules_make_no_rules() {
    let rest = "p { color: red }";
    let alone = select_rules(&parse_style_items(rest), &Vec::new());
    for css in [
        "/* a { b: c } */p { color: red }",
        "@font-face { src: x }p { color: red }",
        "@import url(x.css){}p { color: red }",
    ] {
        let rules = select_rules(&parse_style_items(css), &Vec::new());
        assert_eq!(rules.len(), alone.len());
        assert_eq!(rules[0].declarations, alone[0].declarations);
    }
}
