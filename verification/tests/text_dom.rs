//! String helpers, integer parsing and the document tree.

use browsy::dom::{DomNode, NodeType};
use browsy::text::{
    contains_word, join_strings, parse_i16, parse_u64, parse_usize,
    push_decimal, push_decimal_signed, replace_str, split_char, split_str, split_whitespace,
    trim_str,
};

fn s(v: &str) -> String {
    v.to_string()
}

#[test]
fn unsigned_parsing() {
    assert_eq!(parse_u64("42"), Some(42));
    assert_eq!(parse_u64("+7"), Some(7));
    assert_eq!(parse_u64("18446744073709551615"), Some(u64::MAX));
    assert_eq!(parse_u64("18446744073709551616"), None);
    assert_eq!(parse_u64(""), None);
    assert_eq!(parse_u64("+"), None);
    assert_eq!(parse_u64(" 1"), None);
    assert_eq!(parse_u64("-1"), None);
    assert_eq!(parse_usize("0012"), Some(12));
}

#[test]
fn signed_parsing() {
    assert_eq!(parse_i16("-32768"), Some(-32768));
    assert_eq!(parse_i16("32767"), Some(32767));
    assert_eq!(parse_i16("32768"), None);
    assert_eq!(parse_i16("-32769"), None);
    assert_eq!(parse_i16("+5"), Some(5));
    assert_eq!(parse_i16("-"), None);
    assert_eq!(parse_i16("1.5"), None);
}

#[test]
fn decimal_round_trip() {
    for n in [0u64, 7, 10, 1234567890, u64::MAX] {
        let mut out = String::new();
        push_decimal(&mut out, n);
        assert_eq!(out, n.to_string());
        assert_eq!(parse_u64(&out), Some(n));
    }
    let mut out = s("x=");
    push_decimal_signed(&mut out, -305);
    assert_eq!(out, "x=-305");
    let mut out = String::new();
    push_decimal_signed(&mut out, i64::MIN);
    assert_eq!(out, i64::MIN.to_string());
}

#[test]
fn string_helpers() {
    assert_eq!(trim_str("  a b \n"), "a b");
    assert_eq!(split_char("a,,b", ','), vec![s("a"), s(""), s("b")]);
    assert_eq!(split_char("", ','), vec![s("")]);
    assert_eq!(split_whitespace("  one\ttwo  "), vec![s("one"), s("two")]);
    assert_eq!(replace_str("aXbX", "X", "yy"), "ayybyy");
    assert_eq!(join_strings(&vec![s("a"), s("b"), s("c")], ", "), "a, b, c");
    assert!(contains_word("btn primary large", "primary"));
    assert!(!contains_word("btn primary-x", "primary"));
    // Lower-casing and letter classes reach the library through its users.
    assert!(browsy::fetch::is_local_hostname("LocalHost"));
    assert!(browsy::fetch::looks_blocked("ACCESS DENIED à"));
    let sel = browsy::selector::parse_selector(".café-x").unwrap();
    assert!(matches!(&sel.parts[0], browsy::selector::SelectorPart::Class(c) if c == "café-x"));
}

#[test]
fn attribute_set_get_remove() {
    let mut n = DomNode::new_element("div");
    assert_eq!(n.node_type, NodeType::Element);
    n.set_attr("id", "a");
    n.set_attr("class", "x");
    assert_eq!(n.get_attr("id"), Some("a"));
    n.set_attr("id", "b");
    assert_eq!(n.get_attr("id"), Some("b"));
    assert_eq!(n.get_attr("class"), Some("x"));
    n.remove_attr("id");
    assert_eq!(n.get_attr("id"), None);
    assert!(!n.has_attr("id"));
    assert_eq!(n.get_attr("class"), Some("x"));
}

#[test]
fn text_content_joins_trimmed_pieces() {
    let mut root = DomNode::new_element("p");
    root.children.push(DomNode::new_text("  Hello "));
    let mut b = DomNode::new_element("b");
    b.children.push(DomNode::new_text("\n"));
    b.children.push(DomNode::new_text("world"));
    root.children.push(b);
    assert_eq!(root.text_content(), "Hello world");
    let copy = root.duplicate();
    assert_eq!(copy.text_content(), "Hello world");
    assert_eq!(copy.children.len(), 2);
}

#[test]
fn splitting_on_a_string() {
    assert_eq!(split_str("a and b and c", " and "), vec![s("a"), s("b"), s("c")]);
    assert_eq!(split_str("a and ", " and "), vec![s("a"), s("")]);
    assert_eq!(split_str("", "--"), vec![s("")]);
    assert_eq!(split_str("x---y", "--"), vec![s("x"), s("-y")]);
}

fn raw(kind: browsy::html::RawKind, name: &str, attrs: &[(&str, &str)], text: &str,
    children: Vec<browsy::html::RawNode>) -> browsy::html::RawNode {
    browsy::html::RawNode {
        kind,
        name: s(name),
        attrs: attrs.iter().map(|(k, v)| (s(k), s(v))).collect(),
        text: s(text),
        children,
    }
}

#[test]
fn raw_trees_convert() {
    let k = |t: &str| raw(browsy::html::RawKind::Text, "", &[], t, vec![]);
    let script = raw(browsy::html::RawKind::Element, "script", &[("src", "a.js")], "",
        vec![k("var x;")]);
    let div = raw(browsy::html::RawKind::Element, "div", &[("id", "a"), ("class", "x"), ("id", "b")],
        "", vec![k("  "), k(" hi "), script, raw(browsy::html::RawKind::Other, "", &[], "", vec![])]);
    let doc = raw(browsy::html::RawKind::Document, "", &[], "", vec![k("\n"), div]);
    let tree = browsy::html::convert_tree(&doc);
    assert_eq!(tree.node_type, NodeType::Document);
    assert_eq!(tree.children.len(), 2);
    assert_eq!(tree.children[0].text, "\n");
    let d = &tree.children[1];
    assert_eq!(d.tag, "div");
    assert_eq!(d.attributes, vec![(s("id"), s("b")), (s("class"), s("x"))]);
    assert_eq!(d.children.len(), 3);
    assert_eq!(d.children[0].text, " hi ");
    assert_eq!(d.children[1].tag, "script");
    assert_eq!(d.children[1].get_attr("src"), Some("a.js"));
    assert!(d.children[1].children.is_empty());
    assert_eq!(d.children[2].node_type, NodeType::Document);
}

#[test]
fn direct_text_skips_nested_elements() {
    let mut p = DomNode::new_element("p");
    p.children.push(DomNode::new_text("  Hello "));
    let mut b = DomNode::new_element("b");
    b.children.push(DomNode::new_text("bold"));
    p.children.push(b);
    p.children.push(DomNode::new_text("   "));
    p.children.push(DomNode::new_text("\nworld\t"));
    assert_eq!(p.direct_text(), "Hello world");
    assert_eq!(p.text_content(), "Hello bold world");
    assert_eq!(DomNode::new_element("div").direct_text(), "");
}

#[test]
fn attribute_names_stay_distinct() {
    let mut n = DomNode::new_element("div");
    n.set_attr("id", "a");
    n.set_attr("class", "x");
    n.set_attr("id", "b");
    assert_eq!(n.attributes, vec![("id".to_string(), "b".to_string()), ("class".to_string(), "x".to_string())]);
    n.remove_attr("id");
    assert_eq!(n.attributes, vec![("class".to_string(), "x".to_string())]);
}
