//! HTML parsing: html5ever builds a reference-counted tree, which is read
//! into plain values and converted into a `DomNode` tree.
use std::rc::Rc;

use html5ever::tendril::TendrilSink;
use markup5ever_rcdom::{Node, NodeData};
use vstd::prelude::*;

use crate::dom::{
    attr_lookup, attrs_insert, attrs_unique, law_insert_keeps_unique, view_attrs, DomNode, DomView,
    NodeType,
};
use crate::text::{str_eq, trim, trim_str};

verus! {

#[verifier::external_type_specification]
#[verifier::external_body]
pub struct ExRcdomNode(Node);

/// The kind of an html5ever node, as far as the tree conversion cares.
#[derive(Debug, Clone, Copy, PartialEq, Eq, Structural, Default)]
pub enum RawKind {
    Document,
    Element,
    Text,
    /// Doctype, comment or processing instruction.
    #[default]
    Other,
}

/// A node of the tree html5ever builds, as plain values: its kind, an
/// element's local name and attributes (local name, value) in html5ever's
/// order, a text node's contents, and the children in document order.
#[derive(Debug, Default)]
pub struct RawNode {
    pub kind: RawKind,
    pub name: String,
    pub attrs: Vec<(String, String)>,
    pub text: String,
    pub children: Vec<RawNode>,
}

pub struct RawView {
    pub kind: RawKind,
    pub name: Seq<char>,
    pub attrs: Seq<(Seq<char>, Seq<char>)>,
    pub text: Seq<char>,
    pub children: Seq<RawView>,
}

impl RawNode {
    pub open spec fn rv(&self) -> RawView
        decreases self,
    {
        RawView {
            kind: self.kind,
            name: self.name@,
            attrs: view_attrs(self.attrs@),
            text: self.text@,
            children: Seq::new(
                self.children@.len(),
                |i: int|
                    if 0 <= i < self.children@.len() {
                        self.children@[i].rv()
                    } else {
                        arbitrary()
                    },
            ),
        }
    }
}

pub open spec fn raw_children(c: Seq<RawNode>) -> Seq<RawView> {
    Seq::new(c.len(), |i: int| c[i].rv())
}

proof fn lemma_rv_children(n: &RawNode)
    ensures
        n.rv().children == raw_children(n.children@),
        n.rv().children.len() == n.children@.len(),
{
    assert(n.rv().children =~= raw_children(n.children@));
}

pub open spec fn raw_opt_view(r: Option<RawNode>) -> Option<RawView> {
    match r {
        Some(t) => Some(t.rv()),
        None => None,
    }
}

/// The tree that `html5ever::parse_document` (with the doctype dropped)
/// builds into a `markup5ever_rcdom::RcDom` from a document's text, read
/// as plain values from its document node; `None` when reading the input
/// fails.
pub uninterp spec fn html5ever_tree(html: Seq<char>) -> Option<RawView>;

/// Reads an `markup5ever_rcdom` node and its subtree into plain values:
/// one arm per `NodeData` variant (doctype, comment and processing
/// instruction all become `Other`), children in order.
#[verifier::external_body]
fn raw_from_rcdom(h: &Rc<Node>) -> RawNode {
    let children = h.children.borrow().iter().map(raw_from_rcdom).collect();
    match &h.data {
        NodeData::Document => RawNode { kind: RawKind::Document, children, ..Default::default() },
        NodeData::Element { name, attrs, .. } => RawNode { kind: RawKind::Element, name: name.local.to_string(),
            attrs: attrs.borrow().iter().map(|a| (a.name.local.to_string(), a.value.to_string())).collect(),
            children, ..Default::default() },
        NodeData::Text { contents } => RawNode { kind: RawKind::Text, text: contents.borrow().to_string(), children, ..Default::default() },
        _ => RawNode { children, ..Default::default() },
    }
}

/// Parses a document with `html5ever::parse_document` into an `RcDom`
/// (doctype dropped) and reads its document node into plain values; the
/// contract names that tree.
#[verifier::external_body]
fn html5ever_parse(html: &str) -> (r: Option<RawNode>)
    ensures
        raw_opt_view(r) == html5ever_tree(html@),
{
    let tb = html5ever::tree_builder::TreeBuilderOpts { drop_doctype: true, ..Default::default() };
    let opts = html5ever::ParseOpts { tree_builder: tb, ..Default::default() };
    html5ever::parse_document(markup5ever_rcdom::RcDom::default(), opts)
        .from_utf8()
        .read_from(&mut html.as_bytes())
        .ok()
        .map(|dom| raw_from_rcdom(&dom.document))
}

/// Elements whose content the tree leaves out. A `style` element keeps its
/// text, which holds the page's stylesheet.
pub open spec fn opaque_tag(t: Seq<char>) -> bool {
    t == "script"@ || t == "svg"@ || t == "path"@
}

/// The shape every converted tree has: no two attributes of a node share a
/// name; text nodes are leaves without tag or attributes; an element's text children all show some text; `script`,
/// `svg` and `path` elements have no children.
pub open spec fn well_shaped(v: DomView) -> bool
    decreases v, 0int,
{
    &&& attrs_unique(v.attrs)
    &&& (v.node_type == NodeType::Text ==> v.children.len() == 0 && v.attrs.len() == 0
        && v.tag.len() == 0)
    &&& (v.node_type == NodeType::Element && opaque_tag(v.tag) ==> v.children.len() == 0)
    &&& (v.node_type == NodeType::Element ==> forall|i: int|
        0 <= i < v.children.len() && v.children[i].node_type == NodeType::Text ==> trim(
            #[trigger] v.children[i].text,
        ).len() > 0)
    &&& (v.node_type != NodeType::Text && v.node_type != NodeType::Element ==> v.attrs.len() == 0
        && v.tag.len() == 0)
    &&& children_well_shaped(v.children, v.children.len() as int)
}

pub open spec fn children_well_shaped(cs: Seq<DomView>, k: int) -> bool
    decreases cs, k,
{
    if k <= 0 || k > cs.len() {
        true
    } else {
        children_well_shaped(cs, k - 1) && well_shaped(cs[k - 1])
    }
}

fn is_opaque_tag(t: &str) -> (b: bool)
    ensures
        b == opaque_tag(t@),
{
    str_eq(t, "script") || str_eq(t, "svg") || str_eq(t, "path")
}

// ---------------------------------------------------------------------------
// From html5ever's tree to the document tree
// ---------------------------------------------------------------------------

/// The attributes of an element: each (name, value) set in order, a later
/// one replacing the value of an earlier one of the same name.
pub open spec fn attrs_from(raw: Seq<(Seq<char>, Seq<char>)>) -> Seq<(Seq<char>, Seq<char>)>
    decreases raw.len(),
{
    if raw.len() == 0 {
        Seq::empty()
    } else {
        attrs_insert(attrs_from(raw.drop_last()), raw.last().0, raw.last().1)
    }
}

/// A converted child is kept unless it is a text node with nothing but
/// whitespace.
pub open spec fn kept_child(d: DomView) -> bool {
    !(d.node_type == NodeType::Text && trim(d.text).len() == 0)
}

/// The converted children of a node, the first `k` of them; under an
/// element blank text children are dropped.
pub open spec fn dom_children(cs: Seq<RawView>, k: int, filter: bool) -> Seq<DomView>
    decreases cs, k,
{
    if k <= 0 || k > cs.len() {
        Seq::empty()
    } else {
        let prev = dom_children(cs, k - 1, filter);
        let d = raw_to_dom(cs[k - 1]);
        if filter && !kept_child(d) {
            prev
        } else {
            prev.push(d)
        }
    }
}

pub open spec fn empty_view(t: NodeType) -> DomView {
    DomView {
        tag: Seq::empty(),
        attrs: Seq::empty(),
        text: Seq::empty(),
        children: Seq::empty(),
        node_type: t,
    }
}

/// The document tree of an html5ever tree: the document keeps all its
/// children; an element keeps its name and attributes and its children
/// but blank text, except `script`, `svg` and `path`, which keep none; a text node keeps its text; anything else (comment, doctype,
/// processing instruction) becomes an empty document node.
pub open spec fn raw_to_dom(r: RawView) -> DomView
    decreases r, 0int,
{
    match r.kind {
        RawKind::Document => DomView {
            children: dom_children(r.children, r.children.len() as int, false),
            ..empty_view(NodeType::Document)
        },
        RawKind::Element => DomView {
            tag: r.name,
            attrs: attrs_from(r.attrs),
            text: Seq::empty(),
            children: if opaque_tag(r.name) {
                Seq::empty()
            } else {
                dom_children(r.children, r.children.len() as int, true)
            },
            node_type: NodeType::Element,
        },
        RawKind::Text => DomView { text: r.text, ..empty_view(NodeType::Text) },
        RawKind::Other => empty_view(NodeType::Document),
    }
}

fn element_from(raw: &RawNode) -> (r: DomNode)
    ensures
        r.node_type == NodeType::Element,
        r.children@.len() == 0,
        r.text@.len() == 0,
        r.tag@ == raw.name@,
        view_attrs(r.attributes@) == attrs_from(view_attrs(raw.attrs@)),
{
    let mut node = DomNode::new_element(raw.name.as_str());
    let ghost ra = view_attrs(raw.attrs@);
    let mut i: usize = 0;
    proof {
        assert(ra.take(0) =~= Seq::<(Seq<char>, Seq<char>)>::empty());
        assert(view_attrs(node.attributes@) =~= Seq::<(Seq<char>, Seq<char>)>::empty());
    }
    while i < raw.attrs.len()
        invariant
            node.node_type == NodeType::Element,
            node.children@.len() == 0,
            node.text@.len() == 0,
            node.tag@ == raw.name@,
            i <= raw.attrs@.len(),
            ra == view_attrs(raw.attrs@),
            view_attrs(node.attributes@) == attrs_from(ra.take(i as int)),
        decreases raw.attrs.len() - i,
    {
        proof {
            assert(ra.take(i + 1).drop_last() =~= ra.take(i as int));
            assert(ra.take(i + 1).last() == ra[i as int]);
        }
        node.set_attr(raw.attrs[i].0.as_str(), raw.attrs[i].1.as_str());
        i = i + 1;
    }
    proof {
        assert(ra.take(i as int) =~= ra);
    }
    node
}

/// Converts an html5ever tree, read as plain values, into the document tree
/// (see `raw_to_dom`).
pub fn convert_tree(raw: &RawNode) -> (r: DomNode)
    ensures
        r.dv() == raw_to_dom(raw.rv()),
        well_shaped(r.dv()),
    decreases raw,
{
    let ghost rv = raw.rv();
    proof {
        lemma_rv_children(raw);
    }
    match raw.kind {
        RawKind::Element => {
            let mut node = element_from(raw);
            let opaque = is_opaque_tag(node.tag.as_str());
            if !opaque {
                convert_children(raw, &mut node, true);
            }
            proof {
                crate::dom::lemma_dv_children(&node);
                if opaque {
                    assert(node.dv().children =~= Seq::<DomView>::empty());
                }
                assert(node.dv().text =~= Seq::<char>::empty());
                assert(node.dv() == raw_to_dom(rv));
                lemma_shaped(rv);
            }
            node
        },
        RawKind::Document => {
            let mut doc = DomNode::new_document();
            convert_children(raw, &mut doc, false);
            proof {
                crate::dom::lemma_dv_children(&doc);
                assert(doc.dv().text =~= Seq::<char>::empty());
                assert(doc.dv().tag =~= Seq::<char>::empty());
                assert(doc.dv().attrs =~= Seq::<(Seq<char>, Seq<char>)>::empty());
                assert(doc.dv() == raw_to_dom(rv));
                lemma_shaped(rv);
            }
            doc
        },
        RawKind::Text => {
            let r = DomNode::new_text(raw.text.as_str());
            proof {
                crate::dom::lemma_dv_children(&r);
                assert(r.dv().children =~= Seq::<DomView>::empty());
                assert(r.dv().tag =~= Seq::<char>::empty());
                assert(r.dv().attrs =~= Seq::<(Seq<char>, Seq<char>)>::empty());
                assert(r.dv() == raw_to_dom(rv));
                lemma_shaped(rv);
            }
            r
        },
        RawKind::Other => {
            let r = DomNode::new_document();
            proof {
                crate::dom::lemma_dv_children(&r);
                assert(r.dv().children =~= Seq::<DomView>::empty());
                assert(r.dv().text =~= Seq::<char>::empty());
                assert(r.dv().tag =~= Seq::<char>::empty());
                assert(r.dv().attrs =~= Seq::<(Seq<char>, Seq<char>)>::empty());
                assert(r.dv() == raw_to_dom(rv));
                lemma_shaped(rv);
            }
            r
        },
    }
}

/// Appends the converted children of `raw` to the (childless) `node`.
fn convert_children(raw: &RawNode, node: &mut DomNode, filter: bool)
    requires
        old(node).children@.len() == 0,
    ensures
        final(node).tag == old(node).tag,
        final(node).attributes == old(node).attributes,
        final(node).text == old(node).text,
        final(node).node_type == old(node).node_type,
        final(node).dv().children == dom_children(raw.rv().children, raw.rv().children.len() as int, filter),
    decreases raw, 0int,
{
    let ghost cs = raw.rv().children;
    proof {
        lemma_rv_children(raw);
        crate::dom::lemma_dv_children(node);
        assert(node.dv().children =~= dom_children(cs, 0, filter));
    }
    let mut i: usize = 0;
    while i < raw.children.len()
        invariant
            i <= raw.children@.len(),
            cs == raw.rv().children,
            cs == raw_children(raw.children@),
            node.tag == old(node).tag,
            node.attributes == old(node).attributes,
            node.text == old(node).text,
            node.node_type == old(node).node_type,
            node.dv().children == dom_children(cs, i as int, filter),
        decreases raw.children.len() - i,
    {
        proof {
            assert(cs[i as int] == raw.children@[i as int].rv());
        }
        let c = convert_tree(&raw.children[i]);
        let keep = !(c.node_type == NodeType::Text && trim_str(c.text.as_str()).as_str().is_empty());
        let ghost before = node.dv().children;
        if !filter || keep {
            node.children.push(c);
        }
        proof {
            crate::dom::lemma_dv_children(node);
            let d = raw_to_dom(cs[i as int]);
            assert(c.dv() == d);
            if !filter || keep {
                assert(node.dv().children =~= before.push(d));
            } else {
                assert(node.dv().children =~= before);
            }
        }
        i = i + 1;
    }
}

proof fn lemma_attrs_from_unique(raw: Seq<(Seq<char>, Seq<char>)>)
    ensures
        attrs_unique(attrs_from(raw)),
    decreases raw.len(),
{
    if raw.len() > 0 {
        lemma_attrs_from_unique(raw.drop_last());
        law_insert_keeps_unique(attrs_from(raw.drop_last()), raw.last().0, raw.last().1);
    }
}

/// Every converted tree is well shaped.
proof fn lemma_shaped(r: RawView)
    ensures
        well_shaped(raw_to_dom(r)),
    decreases r, 0int,
{
    let d = raw_to_dom(r);
    match r.kind {
        RawKind::Element => {
            lemma_attrs_from_unique(r.attrs);
            if !opaque_tag(r.name) {
                lemma_children_shaped(r.children, r.children.len() as int, true);
            } else {
                assert(children_well_shaped(d.children, 0));
            }
        },
        RawKind::Document => {
            lemma_children_shaped(r.children, r.children.len() as int, false);
        },
        _ => {
            assert(children_well_shaped(d.children, 0));
        },
    }
}

proof fn lemma_children_shaped(cs: Seq<RawView>, k: int, filter: bool)
    ensures
        children_well_shaped(dom_children(cs, k, filter), dom_children(cs, k, filter).len() as int),
        filter ==> forall|i: int|
            0 <= i < dom_children(cs, k, filter).len() && (#[trigger] dom_children(cs, k, filter)[i]).node_type
                == NodeType::Text ==> trim(dom_children(cs, k, filter)[i].text).len() > 0,
    decreases cs, k,
{
    if 0 < k <= cs.len() {
        lemma_children_shaped(cs, k - 1, filter);
        let prev = dom_children(cs, k - 1, filter);
        let d = raw_to_dom(cs[k - 1]);
        lemma_shaped(cs[k - 1]);
        let all = dom_children(cs, k, filter);
        if !(filter && !kept_child(d)) {
            lemma_children_push(prev, d);
            assert(all == prev.push(d));
        }
    }
}

proof fn lemma_children_push(p: Seq<DomView>, d: DomView)
    requires
        children_well_shaped(p, p.len() as int),
        well_shaped(d),
    ensures
        children_well_shaped(p.push(d), (p.len() + 1) as int),
{
    lemma_children_prefix(p, d, p.len() as int);
}

proof fn lemma_children_prefix(p: Seq<DomView>, d: DomView, k: int)
    requires
        0 <= k <= p.len(),
        children_well_shaped(p, k),
    ensures
        children_well_shaped(p.push(d), k),
    decreases k,
{
    if k > 0 {
        lemma_children_prefix(p, d, k - 1);
        assert(p.push(d)[k - 1] == p[k - 1]);
    }
}

/// Parses an HTML document into a tree rooted at a document node: the
/// conversion (see `raw_to_dom`) of the tree html5ever builds, or an empty
/// document when reading the input fails.
pub fn parse_html(html: &str) -> (r: DomNode)
    ensures
        r.dv() == match html5ever_tree(html@) {
            Some(t) => raw_to_dom(t),
            None => empty_view(NodeType::Document),
        },
        well_shaped(r.dv()),
{
    match html5ever_parse(html) {
        Some(root) => convert_tree(&root),
        None => {
            let r = DomNode::new_document();
            proof {
                crate::dom::lemma_dv_children(&r);
                assert(r.dv().children =~= Seq::<DomView>::empty());
                assert(r.dv().text =~= Seq::<char>::empty());
                assert(r.dv().tag =~= Seq::<char>::empty());
                assert(r.dv().attrs =~= Seq::<(Seq<char>, Seq<char>)>::empty());
                assert(r.dv() == empty_view(NodeType::Document));
                assert(children_well_shaped(r.dv().children, 0));
            }
            r
        },
    }
}

} // verus!
