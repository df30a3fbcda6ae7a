//! The spatial DOM: the flat list of elements an agent sees, each with an
//! id, its tag, role, text, placeholder, link, value, input type, name,
//! label, checked, disabled and required states and hidden flag, and its
//! rounded bounds. Elements
//! that CSS or `aria-hidden` hides are listed with the hidden flag; empty
//! visible boxes are left out; landmarks are listed without text; ids count
//! the listed elements from 1 in document order.
use vstd::prelude::*;

use crate::dom::{attr_lookup, lookup_attr, view_attrs, NodeType};
use crate::js::{interactive_tag_spec, is_interactive_tag, is_text_tag, text_tag_spec};
use crate::text::{
    decimal, decimal_signed, join, join_strings, push_char, push_decimal, push_decimal_signed,
    push_str, str_eq, string_of, to_owned, trim, trim_str, view_strings,
};

verus! {

broadcast use vstd::string::group_string_axioms;

/// What the spatial DOM reads of a laid-out node.
#[derive(Debug)]
pub struct BoxNode {
    pub tag: String,
    pub attributes: Vec<(String, String)>,
    pub text: String,
    /// The text of the whole subtree, as layout collected it.
    pub text_content: String,
    pub node_type: NodeType,
    /// `display: none` or `visibility: hidden`.
    pub hidden: bool,
    /// Width and height both at most zero.
    pub empty: bool,
    /// Bounds rounded to whole pixels: `[x, y, width, height]`.
    pub b: [i32; 4],
    pub children: Vec<BoxNode>,
}

pub struct BoxView {
    pub tag: Seq<char>,
    pub attrs: Seq<(Seq<char>, Seq<char>)>,
    pub text: Seq<char>,
    pub text_content: Seq<char>,
    pub node_type: NodeType,
    pub hidden: bool,
    pub empty: bool,
    pub b: [i32; 4],
    pub children: Seq<BoxView>,
}

impl BoxNode {
    pub open spec fn bv(&self) -> BoxView
        decreases self,
    {
        BoxView {
            tag: self.tag@,
            attrs: view_attrs(self.attributes@),
            text: self.text@,
            text_content: self.text_content@,
            node_type: self.node_type,
            hidden: self.hidden,
            empty: self.empty,
            b: self.b,
            children: Seq::new(
                self.children@.len(),
                |i: int|
                    if 0 <= i < self.children@.len() {
                        self.children@[i].bv()
                    } else {
                        arbitrary()
                    },
            ),
        }
    }
}

pub open spec fn box_children(c: Seq<BoxNode>) -> Seq<BoxView> {
    Seq::new(c.len(), |i: int| c[i].bv())
}

pub proof fn lemma_bv_children(n: &BoxNode)
    ensures
        n.bv().children == box_children(n.children@),
        n.bv().children.len() == n.children@.len(),
{
    assert(n.bv().children =~= box_children(n.children@));
}

/// A single element of the spatial DOM.
#[derive(Debug)]
pub struct SpatialElement {
    pub id: u32,
    pub tag: String,
    pub role: Option<String>,
    pub text: Option<String>,
    /// Placeholder.
    pub ph: Option<String>,
    pub href: Option<String>,
    pub val: Option<String>,
    pub input_type: Option<String>,
    /// The `name` of a form control.
    pub name: Option<String>,
    /// The text of the `<label for=...>` naming a form control.
    pub label: Option<String>,
    /// `Some(true)` for an input with the `checked` attribute.
    pub checked: Option<bool>,
    /// `Some(true)` for an element with the `disabled` attribute.
    pub disabled: Option<bool>,
    /// `Some(true)` for an element with the `required` attribute.
    pub required: Option<bool>,
    /// `Some(true)` for an element inside a hidden subtree.
    pub hidden: Option<bool>,
    /// Bounds: `[x, y, width, height]`.
    pub b: [i32; 4],
}

pub struct ElemSpec {
    pub id: nat,
    pub tag: Seq<char>,
    pub role: Option<Seq<char>>,
    pub text: Option<Seq<char>>,
    pub ph: Option<Seq<char>>,
    pub href: Option<Seq<char>>,
    pub val: Option<Seq<char>>,
    pub input_type: Option<Seq<char>>,
    pub name: Option<Seq<char>>,
    pub label: Option<Seq<char>>,
    pub checked: Option<bool>,
    pub disabled: Option<bool>,
    pub required: Option<bool>,
    pub hidden: Option<bool>,
    pub b: [i32; 4],
}

pub open spec fn ov(o: Option<String>) -> Option<Seq<char>> {
    match o {
        Some(s) => Some(s@),
        None => None,
    }
}

impl SpatialElement {
    pub open spec fn ev(&self) -> ElemSpec {
        ElemSpec {
            id: self.id as nat,
            tag: self.tag@,
            role: ov(self.role),
            text: ov(self.text),
            ph: ov(self.ph),
            href: ov(self.href),
            val: ov(self.val),
            input_type: ov(self.input_type),
            name: ov(self.name),
            label: ov(self.label),
            checked: self.checked,
            disabled: self.disabled,
            required: self.required,
            hidden: self.hidden,
            b: self.b,
        }
    }
}

pub open spec fn elems_view(s: Seq<SpatialElement>) -> Seq<ElemSpec> {
    s.map_values(|e: SpatialElement| e.ev())
}

// ---------------------------------------------------------------------------
// Roles and text
// ---------------------------------------------------------------------------

pub open spec fn heading_tag(t: Seq<char>) -> bool {
    t == "h1"@ || t == "h2"@ || t == "h3"@ || t == "h4"@ || t == "h5"@ || t == "h6"@
}

/// The role of an element: its `role` attribute, else the one its tag (and
/// for `input`, its type, `text` when absent) implies, if any.
pub open spec fn role_spec(tag: Seq<char>, attrs: Seq<(Seq<char>, Seq<char>)>) -> Option<Seq<char>> {
    match attr_lookup(attrs, "role"@) {
        Some(r) => Some(r),
        None => if tag == "a"@ {
            Some("link"@)
        } else if tag == "button"@ {
            Some("button"@)
        } else if tag == "input"@ {
            let t = match attr_lookup(attrs, "type"@) {
                Some(t) => t,
                None => "text"@,
            };
            if t == "checkbox"@ {
                Some("checkbox"@)
            } else if t == "radio"@ {
                Some("radio"@)
            } else if t == "submit"@ || t == "button"@ {
                Some("button"@)
            } else if t == "search"@ {
                Some("searchbox"@)
            } else {
                Some("textbox"@)
            }
        } else if tag == "select"@ {
            Some("combobox"@)
        } else if tag == "textarea"@ {
            Some("textbox"@)
        } else if heading_tag(tag) {
            Some("heading"@)
        } else if tag == "nav"@ {
            Some("navigation"@)
        } else if tag == "header"@ {
            Some("banner"@)
        } else if tag == "footer"@ {
            Some("contentinfo"@)
        } else if tag == "main"@ {
            Some("main"@)
        } else if tag == "aside"@ {
            Some("complementary"@)
        } else if tag == "section"@ {
            Some("region"@)
        } else {
            None
        },
    }
}

/// The landmark tags: page structure rather than content.
pub open spec fn landmark_tag(t: Seq<char>) -> bool {
    t == "nav"@ || t == "header"@ || t == "footer"@ || t == "main"@ || t == "aside"@ || t
        == "section"@
}

/// The landmark roles, whose elements are listed without text.
pub open spec fn landmark_role(r: Seq<char>) -> bool {
    r == "navigation"@ || r == "banner"@ || r == "contentinfo"@ || r == "main"@ || r
        == "complementary"@ || r == "region"@
}

/// The ARIA role of an element, explicit or implied by its tag.
pub fn determine_role(tag: &str, attributes: &Vec<(String, String)>) -> (r: Option<String>)
    ensures
        ov(r) == role_spec(tag@, view_attrs(attributes@)),
{
    if let Some(role) = lookup_attr(attributes, "role") {
        return Some(to_owned(role));
    }
    if str_eq(tag, "a") {
        Some(to_owned("link"))
    } else if str_eq(tag, "button") {
        Some(to_owned("button"))
    } else if str_eq(tag, "input") {
        let t = match lookup_attr(attributes, "type") {
            Some(t) => t,
            None => "text",
        };
        if str_eq(t, "checkbox") {
            Some(to_owned("checkbox"))
        } else if str_eq(t, "radio") {
            Some(to_owned("radio"))
        } else if str_eq(t, "submit") || str_eq(t, "button") {
            Some(to_owned("button"))
        } else if str_eq(t, "search") {
            Some(to_owned("searchbox"))
        } else {
            Some(to_owned("textbox"))
        }
    } else if str_eq(tag, "select") {
        Some(to_owned("combobox"))
    } else if str_eq(tag, "textarea") {
        Some(to_owned("textbox"))
    } else if str_eq(tag, "h1") || str_eq(tag, "h2") || str_eq(tag, "h3") || str_eq(tag, "h4")
        || str_eq(tag, "h5") || str_eq(tag, "h6") {
        Some(to_owned("heading"))
    } else if str_eq(tag, "nav") {
        Some(to_owned("navigation"))
    } else if str_eq(tag, "header") {
        Some(to_owned("banner"))
    } else if str_eq(tag, "footer") {
        Some(to_owned("contentinfo"))
    } else if str_eq(tag, "main") {
        Some(to_owned("main"))
    } else if str_eq(tag, "aside") {
        Some(to_owned("complementary"))
    } else if str_eq(tag, "section") {
        Some(to_owned("region"))
    } else {
        None
    }
}

/// The text nodes of a subtree, each trimmed, the non-empty ones joined by
/// a single space (none is added after text that already ends in one).
pub open spec fn text_rec(v: BoxView, out: Seq<char>) -> Seq<char>
    decreases v, 0int,
{
    if v.node_type == NodeType::Text {
        let t = trim(v.text);
        if t.len() > 0 {
            (if out.len() > 0 && out.last() != ' ' {
                out.push(' ')
            } else {
                out
            }) + t
        } else {
            out
        }
    } else if v.node_type == NodeType::Element && v.tag == "style"@ {
        out
    } else {
        text_rec_upto(v.children, v.children.len() as int, out)
    }
}

pub open spec fn text_rec_upto(cs: Seq<BoxView>, k: int, out: Seq<char>) -> Seq<char>
    decreases cs, k,
{
    if k <= 0 || k > cs.len() {
        out
    } else {
        text_rec(cs[k - 1], text_rec_upto(cs, k - 1, out))
    }
}

pub open spec fn visible_text(v: BoxView) -> Seq<char> {
    trim(text_rec(v, Seq::empty()))
}

fn collect_text_recursive(node: &BoxNode, out: &mut Vec<char>)
    ensures
        final(out)@ == text_rec(node.bv(), old(out)@),
    decreases node,
{
    let ghost v = node.bv();
    proof {
        lemma_bv_children(node);
    }
    if node.node_type == NodeType::Text {
        let t = trim_str(node.text.as_str());
        let tv = crate::text::chars_of(t.as_str());
        if tv.len() > 0 {
            if out.len() > 0 && out[out.len() - 1] != ' ' {
                out.push(' ');
            }
            let ghost before = out@;
            let mut i: usize = 0;
            while i < tv.len()
                invariant
                    i <= tv@.len(),
                    out@ == before + tv@.take(i as int),
                decreases tv.len() - i,
            {
                out.push(tv[i]);
                proof {
                    assert(tv@.take(i + 1) =~= tv@.take(i as int).push(tv@[i as int]));
                }
                i = i + 1;
            }
            proof {
                assert(tv@.take(i as int) =~= tv@);
            }
        }
        return;
    }
    if node.node_type == NodeType::Element && str_eq(node.tag.as_str(), "style") {
        return;
    }
    let ghost cs = v.children;
    let ghost base = out@;
    let mut i: usize = 0;
    while i < node.children.len()
        invariant
            i <= node.children@.len(),
            v == node.bv(),
            cs == v.children,
            cs == box_children(node.children@),
            v.node_type != NodeType::Text,
            !(v.node_type == NodeType::Element && v.tag == "style"@),
            out@ == text_rec_upto(cs, i as int, base),
        decreases node.children.len() - i,
    {
        collect_text_recursive(&node.children[i], out);
        proof {
            assert(cs[i as int] == node.children@[i as int].bv());
        }
        i = i + 1;
    }
}

/// The visible text of a subtree (see `text_rec`), trimmed.
pub fn collect_visible_text(node: &BoxNode) -> (r: String)
    ensures
        r@ == visible_text(node.bv()),
{
    let mut out: Vec<char> = Vec::new();
    collect_text_recursive(node, &mut out);
    let s = string_of(&out);
    trim_str(s.as_str())
}

/// The text of the first `<title>` element whose visible text is not empty.
pub open spec fn find_title_spec(v: BoxView) -> Option<Seq<char>>
    decreases v, 0int,
{
    if v.tag == "title"@ && visible_text(v).len() > 0 {
        Some(visible_text(v))
    } else {
        find_title_from(v.children, 0)
    }
}

pub open spec fn find_title_from(cs: Seq<BoxView>, k: int) -> Option<Seq<char>>
    decreases cs, cs.len() - k,
{
    if k < 0 || k >= cs.len() {
        None
    } else {
        match find_title_spec(cs[k]) {
            Some(t) => Some(t),
            None => find_title_from(cs, k + 1),
        }
    }
}

pub fn find_title(node: &BoxNode) -> (r: Option<String>)
    ensures
        ov(r) == find_title_spec(node.bv()),
    decreases node,
{
    let ghost v = node.bv();
    proof {
        lemma_bv_children(node);
    }
    if str_eq(node.tag.as_str(), "title") {
        let text = collect_visible_text(node);
        if !text.as_str().is_empty() {
            return Some(text);
        }
    }
    let ghost cs = v.children;
    let mut i: usize = 0;
    while i < node.children.len()
        invariant
            i <= node.children@.len(),
            v == node.bv(),
            cs == v.children,
            cs == box_children(node.children@),
            find_title_spec(v) == find_title_from(cs, i as int),
        decreases node.children.len() - i,
    {
        proof {
            assert(cs[i as int] == node.children@[i as int].bv());
        }
        match find_title(&node.children[i]) {
            Some(t) => {
                return Some(t);
            },
            None => {},
        }
        i = i + 1;
    }
    None
}

// ---------------------------------------------------------------------------
// Text for links and buttons without any
// ---------------------------------------------------------------------------

/// An attribute's value when it is present and not empty.
pub open spec fn nonempty(o: Option<Seq<char>>) -> Option<Seq<char>> {
    match o {
        Some(a) => if a.len() > 0 {
            Some(a)
        } else {
            None
        },
        None => None,
    }
}

/// The `alt` text of the first `<img>` with a non-empty one in a subtree,
/// in document order.
pub open spec fn img_alt_of(v: BoxView) -> Option<Seq<char>>
    decreases v, 0int,
{
    if v.tag == "img"@ && nonempty(attr_lookup(v.attrs, "alt"@)) is Some {
        nonempty(attr_lookup(v.attrs, "alt"@))
    } else {
        img_alt_from(v.children, 0)
    }
}

pub open spec fn img_alt_from(cs: Seq<BoxView>, k: int) -> Option<Seq<char>>
    decreases cs, cs.len() - k,
{
    if k < 0 || k >= cs.len() {
        None
    } else {
        match img_alt_of(cs[k]) {
            Some(a) => Some(a),
            None => img_alt_from(cs, k + 1),
        }
    }
}

/// The title of the first `<svg>` with one in a subtree, in document order.
pub open spec fn svg_title_of(v: BoxView) -> Option<Seq<char>>
    decreases v, 0int,
{
    if v.tag == "svg"@ && find_title_from(v.children, 0) is Some {
        find_title_from(v.children, 0)
    } else {
        svg_title_from(v.children, 0)
    }
}

pub open spec fn svg_title_from(cs: Seq<BoxView>, k: int) -> Option<Seq<char>>
    decreases cs, cs.len() - k,
{
    if k < 0 || k >= cs.len() {
        None
    } else {
        match svg_title_of(cs[k]) {
            Some(a) => Some(a),
            None => svg_title_from(cs, k + 1),
        }
    }
}

/// The text of a link or button that shows none: its `aria-label`, else
/// its `title`, else the `alt` of an image inside, else the title of an
/// SVG inside (each only when not empty).
pub open spec fn fallback_text(v: BoxView) -> Option<Seq<char>> {
    if nonempty(attr_lookup(v.attrs, "aria-label"@)) is Some {
        nonempty(attr_lookup(v.attrs, "aria-label"@))
    } else if nonempty(attr_lookup(v.attrs, "title"@)) is Some {
        nonempty(attr_lookup(v.attrs, "title"@))
    } else {
        match img_alt_from(v.children, 0) {
            Some(a) => Some(a),
            None => svg_title_from(v.children, 0),
        }
    }
}

fn nonempty_attr(attrs: &Vec<(String, String)>, name: &str) -> (r: Option<String>)
    ensures
        ov(r) == nonempty(attr_lookup(view_attrs(attrs@), name@)),
{
    match lookup_attr(attrs, name) {
        Some(a) => if !a.is_empty() {
            Some(to_owned(a))
        } else {
            None
        },
        None => None,
    }
}

fn img_alt(node: &BoxNode) -> (r: Option<String>)
    ensures
        ov(r) == img_alt_of(node.bv()),
    decreases node,
{
    let ghost v = node.bv();
    proof {
        lemma_bv_children(node);
    }
    if str_eq(node.tag.as_str(), "img") {
        match nonempty_attr(&node.attributes, "alt") {
            Some(a) => {
                return Some(a);
            },
            None => {},
        }
    }
    let ghost cs = v.children;
    let mut i: usize = 0;
    while i < node.children.len()
        invariant
            i <= node.children@.len(),
            v == node.bv(),
            cs == v.children,
            cs == box_children(node.children@),
            img_alt_of(v) == img_alt_from(cs, i as int),
        decreases node.children.len() - i,
    {
        proof {
            assert(cs[i as int] == node.children@[i as int].bv());
        }
        match img_alt(&node.children[i]) {
            Some(a) => {
                return Some(a);
            },
            None => {},
        }
        i = i + 1;
    }
    None
}

fn svg_title(node: &BoxNode) -> (r: Option<String>)
    ensures
        ov(r) == svg_title_of(node.bv()),
    decreases node,
{
    let ghost v = node.bv();
    proof {
        lemma_bv_children(node);
    }
    let ghost cs = v.children;
    if str_eq(node.tag.as_str(), "svg") {
        let mut j: usize = 0;
        while j < node.children.len()
            invariant
                j <= node.children@.len(),
                v == node.bv(),
                cs == v.children,
                cs == box_children(node.children@),
                v.tag == "svg"@,
                find_title_from(cs, 0) == find_title_from(cs, j as int),
            decreases node.children.len() - j,
        {
            proof {
                assert(cs[j as int] == node.children@[j as int].bv());
            }
            match find_title(&node.children[j]) {
                Some(t) => {
                    proof {
                        assert(find_title_from(cs, j as int) == Some(t@));
                    }
                    return Some(t);
                },
                None => {},
            }
            j = j + 1;
        }
    }
    let mut i: usize = 0;
    while i < node.children.len()
        invariant
            i <= node.children@.len(),
            v == node.bv(),
            cs == v.children,
            cs == box_children(node.children@),
            svg_title_of(v) == svg_title_from(cs, i as int),
        decreases node.children.len() - i,
    {
        proof {
            assert(cs[i as int] == node.children@[i as int].bv());
        }
        match svg_title(&node.children[i]) {
            Some(a) => {
                return Some(a);
            },
            None => {},
        }
        i = i + 1;
    }
    None
}

fn fallback(node: &BoxNode) -> (r: Option<String>)
    ensures
        ov(r) == fallback_text(node.bv()),
{
    let ghost v = node.bv();
    proof {
        lemma_bv_children(node);
    }
    match nonempty_attr(&node.attributes, "aria-label") {
        Some(a) => {
            return Some(a);
        },
        None => {},
    }
    match nonempty_attr(&node.attributes, "title") {
        Some(t) => {
            return Some(t);
        },
        None => {},
    }
    let ghost cs = v.children;
    let mut i: usize = 0;
    while i < node.children.len()
        invariant
            i <= node.children@.len(),
            v == node.bv(),
            cs == v.children,
            cs == box_children(node.children@),
            nonempty(attr_lookup(v.attrs, "aria-label"@)) is None,
            nonempty(attr_lookup(v.attrs, "title"@)) is None,
            img_alt_from(cs, 0) == img_alt_from(cs, i as int),
        decreases node.children.len() - i,
    {
        proof {
            assert(cs[i as int] == node.children@[i as int].bv());
        }
        match img_alt(&node.children[i]) {
            Some(a) => {
                proof {
                    assert(img_alt_from(cs, i as int) == Some(a@));
                }
                return Some(a);
            },
            None => {},
        }
        i = i + 1;
    }
    let mut k: usize = 0;
    while k < node.children.len()
        invariant
            k <= node.children@.len(),
            v == node.bv(),
            cs == v.children,
            cs == box_children(node.children@),
            nonempty(attr_lookup(v.attrs, "aria-label"@)) is None,
            nonempty(attr_lookup(v.attrs, "title"@)) is None,
            img_alt_from(cs, 0) is None,
            svg_title_from(cs, 0) == svg_title_from(cs, k as int),
        decreases node.children.len() - k,
    {
        proof {
            assert(cs[k as int] == node.children@[k as int].bv());
        }
        match svg_title(&node.children[k]) {
            Some(a) => {
                proof {
                    assert(svg_title_from(cs, k as int) == Some(a@));
                }
                return Some(a);
            },
            None => {},
        }
        k = k + 1;
    }
    None
}

// ---------------------------------------------------------------------------
// Listing elements
// ---------------------------------------------------------------------------

/// Whether a node is listed: an interactive, text-bearing or landmark tag,
/// or an `onclick`, `role` or `tabindex` attribute.
pub open spec fn listed(v: BoxView) -> bool {
    interactive_tag_spec(v.tag) || text_tag_spec(v.tag) || landmark_tag(v.tag) || attr_lookup(
        v.attrs,
        "onclick"@,
    ) is Some || attr_lookup(v.attrs, "role"@) is Some || attr_lookup(v.attrs, "tabindex"@) is Some
}

/// Whether a node hides itself: CSS hides it, or `aria-hidden="true"`.
pub open spec fn node_hidden(v: BoxView) -> bool {
    v.hidden || attr_lookup(v.attrs, "aria-hidden"@) == Some("true"@)
}

pub open spec fn form_control(t: Seq<char>) -> bool {
    t == "input"@ || t == "textarea"@ || t == "select"@
}

/// The text of the label for an element with these attributes: the first
/// `(for, text)` pair naming its `id`, if that text is not empty.
pub open spec fn label_of(attrs: Seq<(Seq<char>, Seq<char>)>, labels: Seq<(Seq<char>, Seq<char>)>) -> Option<
    Seq<char>,
> {
    match attr_lookup(attrs, "id"@) {
        Some(i) => match attr_lookup(labels, i) {
            Some(t) => if t.len() > 0 {
                Some(t)
            } else {
                None
            },
            None => None,
        },
        None => None,
    }
}

/// The element a listed node becomes, with id `id`. A landmark carries no
/// text (its children carry it); a link or button without text takes the
/// fallback text; a form control carries its name and label.
pub open spec fn element_of(v: BoxView, id: nat, labels: Seq<(Seq<char>, Seq<char>)>, hidden: bool) -> ElemSpec {
    let role = role_spec(v.tag, v.attrs);
    let tc = if role matches Some(r) && landmark_role(r) {
        Seq::empty()
    } else if v.text_content.len() > 0 {
        v.text_content
    } else {
        visible_text(v)
    };
    ElemSpec {
        id,
        tag: v.tag,
        role,
        text: if tc.len() > 0 {
            Some(tc)
        } else if !(role matches Some(r) && landmark_role(r)) && (v.tag == "a"@ || v.tag
            == "button"@) {
            fallback_text(v)
        } else {
            None
        },
        ph: attr_lookup(v.attrs, "placeholder"@),
        href: attr_lookup(v.attrs, "href"@),
        val: attr_lookup(v.attrs, "value"@),
        input_type: if v.tag == "input"@ {
            attr_lookup(v.attrs, "type"@)
        } else {
            None
        },
        name: if form_control(v.tag) {
            attr_lookup(v.attrs, "name"@)
        } else {
            None
        },
        label: if form_control(v.tag) {
            label_of(v.attrs, labels)
        } else {
            None
        },
        checked: if v.tag == "input"@ && attr_lookup(v.attrs, "checked"@) is Some {
            Some(true)
        } else {
            None
        },
        disabled: if attr_lookup(v.attrs, "disabled"@) is Some {
            Some(true)
        } else {
            None
        },
        required: if attr_lookup(v.attrs, "required"@) is Some {
            Some(true)
        } else {
            None
        },
        hidden: if hidden {
            Some(true)
        } else {
            None
        },
        b: v.b,
    }
}

/// The elements of a subtree whose first listed element gets id `c`, and
/// the next id. Inside a hidden node every listed node is listed as hidden;
/// a visible empty element box is not listed, its children may be.
pub open spec fn elements_spec(
    v: BoxView,
    c: nat,
    parent_hidden: bool,
    labels: Seq<(Seq<char>, Seq<char>)>,
) -> (Seq<ElemSpec>, nat)
    decreases v, 0int,
{
    let is_hidden = parent_hidden || node_hidden(v);
    let n = v.children.len() as int;
    if !is_hidden && v.empty && v.node_type == NodeType::Element {
        elements_upto(v.children, n, c, false, labels)
    } else if listed(v) {
        let r = elements_upto(v.children, n, c + 1, is_hidden, labels);
        (seq![element_of(v, c, labels, is_hidden)] + r.0, r.1)
    } else {
        elements_upto(v.children, n, c, is_hidden, labels)
    }
}

pub open spec fn elements_upto(
    cs: Seq<BoxView>,
    k: int,
    c: nat,
    hidden: bool,
    labels: Seq<(Seq<char>, Seq<char>)>,
) -> (Seq<ElemSpec>, nat)
    decreases cs, k,
{
    if k <= 0 || k > cs.len() {
        (Seq::empty(), c)
    } else {
        let p = elements_upto(cs, k - 1, c, hidden, labels);
        let q = elements_spec(cs[k - 1], p.1, hidden, labels);
        (p.0 + q.0, q.1)
    }
}

pub proof fn lemma_elements_mono(v: BoxView, c: nat, h: bool, l: Seq<(Seq<char>, Seq<char>)>)
    ensures
        c <= elements_spec(v, c, h, l).1,
    decreases v, 0int,
{
    let is_hidden = h || node_hidden(v);
    let n = v.children.len() as int;
    if !is_hidden && v.empty && v.node_type == NodeType::Element {
        lemma_elements_upto_mono(v.children, n, c, false, l);
    } else if listed(v) {
        lemma_elements_upto_mono(v.children, n, c + 1, is_hidden, l);
    } else {
        lemma_elements_upto_mono(v.children, n, c, is_hidden, l);
    }
}

pub proof fn lemma_elements_upto_mono(
    cs: Seq<BoxView>,
    k: int,
    c: nat,
    h: bool,
    l: Seq<(Seq<char>, Seq<char>)>,
)
    ensures
        c <= elements_upto(cs, k, c, h, l).1,
        0 < k <= cs.len() ==> elements_upto(cs, k - 1, c, h, l).1 <= elements_upto(cs, k, c, h, l).1,
    decreases cs, k,
{
    if 0 < k <= cs.len() {
        lemma_elements_upto_mono(cs, k - 1, c, h, l);
        lemma_elements_mono(cs[k - 1], elements_upto(cs, k - 1, c, h, l).1, h, l);
    }
}

proof fn lemma_elements_upto_prefix(
    cs: Seq<BoxView>,
    j: int,
    k: int,
    c: nat,
    h: bool,
    l: Seq<(Seq<char>, Seq<char>)>,
)
    requires
        0 <= j <= k <= cs.len(),
    ensures
        elements_upto(cs, j, c, h, l).1 <= elements_upto(cs, k, c, h, l).1,
    decreases k - j,
{
    if j < k {
        lemma_elements_upto_prefix(cs, j, k - 1, c, h, l);
        lemma_elements_upto_mono(cs, k, c, h, l);
    }
}

fn attr_string(attrs: &Vec<(String, String)>, name: &str) -> (r: Option<String>)
    ensures
        ov(r) == attr_lookup(view_attrs(attrs@), name@),
{
    match lookup_attr(attrs, name) {
        Some(v) => Some(to_owned(v)),
        None => None,
    }
}

// ---------------------------------------------------------------------------
// Labels
// ---------------------------------------------------------------------------

/// The `(for, text)` pairs of the `<label for=...>` elements of a subtree,
/// in document order, the text being the label's visible text.
pub open spec fn label_pairs(v: BoxView) -> Seq<(Seq<char>, Seq<char>)>
    decreases v, 0int,
{
    (if v.tag == "label"@ && attr_lookup(v.attrs, "for"@) is Some {
        seq![(attr_lookup(v.attrs, "for"@)->0, visible_text(v))]
    } else {
        Seq::empty()
    }) + label_pairs_upto(v.children, v.children.len() as int)
}

pub open spec fn label_pairs_upto(cs: Seq<BoxView>, k: int) -> Seq<(Seq<char>, Seq<char>)>
    decreases cs, k,
{
    if k <= 0 || k > cs.len() {
        Seq::empty()
    } else {
        label_pairs_upto(cs, k - 1) + label_pairs(cs[k - 1])
    }
}

fn collect_labels(node: &BoxNode, out: &mut Vec<(String, String)>)
    ensures
        view_attrs(final(out)@) == view_attrs(old(out)@) + label_pairs(node.bv()),
    decreases node,
{
    let ghost v = node.bv();
    let ghost base = view_attrs(out@);
    proof {
        lemma_bv_children(node);
    }
    if str_eq(node.tag.as_str(), "label") {
        match lookup_attr(&node.attributes, "for") {
            Some(f) => {
                let t = collect_visible_text(node);
                let ghost prev = out@;
                out.push((to_owned(f), t));
                proof {
                    assert(view_attrs(out@) =~= view_attrs(prev).push((f@, t@)));
                }
            },
            None => {},
        }
    }
    let ghost own = view_attrs(out@).skip(base.len() as int);
    proof {
        assert(view_attrs(out@) =~= base + own);
    }
    let ghost cs = v.children;
    let mut i: usize = 0;
    proof {
        assert(own + label_pairs_upto(cs, 0) =~= own);
    }
    while i < node.children.len()
        invariant
            i <= node.children@.len(),
            v == node.bv(),
            cs == v.children,
            cs == box_children(node.children@),
            own == (if v.tag == "label"@ && attr_lookup(v.attrs, "for"@) is Some {
                seq![(attr_lookup(v.attrs, "for"@)->0, visible_text(v))]
            } else {
                Seq::empty()
            }),
            view_attrs(out@) == base + own + label_pairs_upto(cs, i as int),
        decreases node.children.len() - i,
    {
        proof {
            assert(cs[i as int] == node.children@[i as int].bv());
        }
        collect_labels(&node.children[i], out);
        proof {
            assert(base + own + label_pairs_upto(cs, i as int) + label_pairs(cs[i as int]) =~= base
                + own + label_pairs_upto(cs, i + 1));
        }
        i = i + 1;
    }
    proof {
        assert(base + own + label_pairs_upto(cs, cs.len() as int) =~= base + label_pairs(v));
    }
}

fn label_lookup(attrs: &Vec<(String, String)>, labels: &Vec<(String, String)>) -> (r: Option<String>)
    ensures
        ov(r) == label_of(view_attrs(attrs@), view_attrs(labels@)),
{
    match lookup_attr(attrs, "id") {
        Some(i) => match lookup_attr(labels, i) {
            Some(t) => if !t.is_empty() {
                Some(to_owned(t))
            } else {
                None
            },
            None => None,
        },
        None => None,
    }
}

fn is_landmark_role(r: &str) -> (b: bool)
    ensures
        b == landmark_role(r@),
{
    str_eq(r, "navigation") || str_eq(r, "banner") || str_eq(r, "contentinfo") || str_eq(r, "main")
        || str_eq(r, "complementary") || str_eq(r, "region")
}

pub(crate) fn is_landmark_tag(t: &str) -> (b: bool)
    ensures
        b == landmark_tag(t@),
{
    str_eq(t, "nav") || str_eq(t, "header") || str_eq(t, "footer") || str_eq(t, "main") || str_eq(
        t,
        "aside",
    ) || str_eq(t, "section")
}

fn is_form_control(t: &str) -> (b: bool)
    ensures
        b == form_control(t@),
{
    str_eq(t, "input") || str_eq(t, "textarea") || str_eq(t, "select")
}

// ---------------------------------------------------------------------------
// Listing
// ---------------------------------------------------------------------------

fn make_element(
    node: &BoxNode,
    id: u32,
    labels: &Vec<(String, String)>,
    hidden: bool,
) -> (el: SpatialElement)
    ensures
        el.ev() == element_of(node.bv(), id as nat, view_attrs(labels@), hidden),
{
    let ghost v = node.bv();
    let tag = node.tag.as_str();
    let role = determine_role(tag, &node.attributes);
    let is_landmark = match &role {
        Some(r) => is_landmark_role(r.as_str()),
        None => false,
    };
    let text = if is_landmark {
        None
    } else {
        let tc = if !node.text_content.as_str().is_empty() {
            crate::text::copy_string(&node.text_content)
        } else {
            collect_visible_text(node)
        };
        if !tc.as_str().is_empty() {
            Some(tc)
        } else if str_eq(tag, "a") || str_eq(tag, "button") {
            fallback(node)
        } else {
            None
        }
    };
    let input_type = if str_eq(tag, "input") {
        attr_string(&node.attributes, "type")
    } else {
        None
    };
    let control = is_form_control(tag);
    let name = if control {
        attr_string(&node.attributes, "name")
    } else {
        None
    };
    let label = if control {
        label_lookup(&node.attributes, labels)
    } else {
        None
    };
    let checked = if str_eq(tag, "input") && lookup_attr(&node.attributes, "checked").is_some() {
        Some(true)
    } else {
        None
    };
    let disabled = if lookup_attr(&node.attributes, "disabled").is_some() {
        Some(true)
    } else {
        None
    };
    let required = if lookup_attr(&node.attributes, "required").is_some() {
        Some(true)
    } else {
        None
    };
    let el = SpatialElement {
        id,
        tag: to_owned(tag),
        role,
        text,
        ph: attr_string(&node.attributes, "placeholder"),
        href: attr_string(&node.attributes, "href"),
        val: attr_string(&node.attributes, "value"),
        input_type,
        name,
        label,
        checked,
        disabled,
        required,
        hidden: if hidden {
            Some(true)
        } else {
            None
        },
        b: node.b,
    };
    proof {
        assert(el.ev() == element_of(v, id as nat, view_attrs(labels@), hidden));
    }
    el
}

fn collect_elements(
    node: &BoxNode,
    labels: &Vec<(String, String)>,
    els: &mut Vec<SpatialElement>,
    id_counter: &mut u32,
    parent_hidden: bool,
)
    requires
        elements_spec(node.bv(), *old(id_counter) as nat, parent_hidden, view_attrs(labels@)).1
            <= u32::MAX,
    ensures
        elems_view(final(els)@) == elems_view(old(els)@) + elements_spec(
            node.bv(),
            *old(id_counter) as nat,
            parent_hidden,
            view_attrs(labels@),
        ).0,
        *final(id_counter) as nat == elements_spec(
            node.bv(),
            *old(id_counter) as nat,
            parent_hidden,
            view_attrs(labels@),
        ).1,
    decreases node,
{
    let ghost v = node.bv();
    let ghost l = view_attrs(labels@);
    let ghost c0 = *id_counter as nat;
    let ghost e0 = elems_view(els@);
    proof {
        lemma_bv_children(node);
    }
    let aria_hidden = match lookup_attr(&node.attributes, "aria-hidden") {
        Some(a) => str_eq(a, "true"),
        None => false,
    };
    proof {
        reveal_strlit("true");
    }
    let is_hidden = parent_hidden || node.hidden || aria_hidden;
    let skip = !is_hidden && node.empty && node.node_type == NodeType::Element;
    let tag = node.tag.as_str();
    let is_listed = is_interactive_tag(tag) || is_text_tag(tag) || is_landmark_tag(tag)
        || lookup_attr(&node.attributes, "onclick").is_some() || lookup_attr(
        &node.attributes,
        "role",
    ).is_some() || lookup_attr(&node.attributes, "tabindex").is_some();
    let emit = !skip && is_listed;
    let child_hidden = if skip {
        false
    } else {
        is_hidden
    };
    let ghost own: Seq<ElemSpec> = if emit {
        seq![element_of(v, c0, l, is_hidden)]
    } else {
        Seq::empty()
    };
    let ghost c1: nat = if emit {
        c0 + 1
    } else {
        c0
    };
    proof {
        assert(is_hidden == (parent_hidden || node_hidden(v)));
        assert(emit == (!(!(parent_hidden || node_hidden(v)) && v.empty && v.node_type
            == NodeType::Element) && listed(v)));
    }
    if emit {
        let el = make_element(node, *id_counter, labels, is_hidden);
        proof {
            lemma_elements_upto_mono(v.children, v.children.len() as int, c1, child_hidden, l);
            assert(elems_view(els@.push(el)) =~= e0 + own);
        }
        els.push(el);
        *id_counter = *id_counter + 1;
    } else {
        proof {
            assert(e0 + own =~= e0);
        }
    }
    let ghost cs = v.children;
    let mut i: usize = 0;
    while i < node.children.len()
        invariant
            i <= node.children@.len(),
            v == node.bv(),
            cs == v.children,
            cs == box_children(node.children@),
            l == view_attrs(labels@),
            elements_upto(cs, cs.len() as int, c1, child_hidden, l).1 <= u32::MAX,
            elements_spec(v, c0, parent_hidden, l) == (own + elements_upto(
                cs,
                cs.len() as int,
                c1,
                child_hidden,
                l,
            ).0, elements_upto(cs, cs.len() as int, c1, child_hidden, l).1),
            elems_view(els@) == e0 + own + elements_upto(cs, i as int, c1, child_hidden, l).0,
            *id_counter as nat == elements_upto(cs, i as int, c1, child_hidden, l).1,
        decreases node.children.len() - i,
    {
        proof {
            lemma_elements_upto_prefix(cs, i + 1, cs.len() as int, c1, child_hidden, l);
            assert(cs[i as int] == node.children@[i as int].bv());
        }
        collect_elements(&node.children[i], labels, els, id_counter, child_hidden);
        proof {
            let u = elements_upto(cs, i as int, c1, child_hidden, l);
            let w = elements_spec(cs[i as int], u.1, child_hidden, l);
            assert(elements_upto(cs, i + 1, c1, child_hidden, l) == (u.0 + w.0, w.1));
            assert(e0 + own + u.0 + w.0 =~= e0 + own + (u.0 + w.0));
        }
        i = i + 1;
    }
    proof {
        assert(e0 + own + elements_upto(cs, cs.len() as int, c1, child_hidden, l).0 =~= e0 + (own
            + elements_upto(cs, cs.len() as int, c1, child_hidden, l).0));
    }
}

/// The `(for, text)` label pairs of a laid-out tree, in document order.
pub fn collect_label_pairs(root: &BoxNode) -> (r: Vec<(String, String)>)
    ensures
        view_attrs(r@) == label_pairs(root.bv()),
{
    let mut out: Vec<(String, String)> = Vec::new();
    collect_labels(root, &mut out);
    proof {
        assert(view_attrs(Seq::<(String, String)>::empty()) + label_pairs(root.bv()) =~= label_pairs(
            root.bv(),
        ));
    }
    out
}

/// The elements of the spatial DOM for a laid-out tree, ids from 1.
pub fn spatial_elements(root: &BoxNode) -> (r: Vec<SpatialElement>)
    requires
        elements_spec(root.bv(), 1, false, label_pairs(root.bv())).1 <= u32::MAX,
    ensures
        elems_view(r@) == elements_spec(root.bv(), 1, false, label_pairs(root.bv())).0,
{
    let labels = collect_label_pairs(root);
    let mut els: Vec<SpatialElement> = Vec::new();
    let mut id_counter: u32 = 1;
    collect_elements(root, &labels, &mut els, &mut id_counter, false);
    proof {
        assert(elems_view(Seq::<SpatialElement>::empty()) + elements_spec(
            root.bv(),
            1,
            false,
            label_pairs(root.bv()),
        ).0 =~= elements_spec(root.bv(), 1, false, label_pairs(root.bv())).0);
    }
    els
}

// ---------------------------------------------------------------------------
// The compact text form
// ---------------------------------------------------------------------------

pub open spec fn quoted(t: Seq<char>) -> Seq<char> {
    "\""@ + t + "\""@
}

/// The parts of one element's line: `id:tag[:type]` (after a `!` when the
/// element is hidden), the quoted text (or placeholder), `->href`, and
/// `@x,y wxh`.
pub open spec fn compact_parts(e: ElemSpec) -> Seq<Seq<char>> {
    let mark: Seq<char> = if e.hidden == Some(true) {
        "!"@
    } else {
        Seq::empty()
    };
    let head = mark + decimal(e.id) + ":"@ + e.tag + match e.input_type {
        Some(t) => if t != "text"@ {
            ":"@ + t
        } else {
            Seq::empty()
        },
        None => Seq::empty(),
    };
    let text_part: Seq<Seq<char>> = match e.text {
        Some(t) => seq![quoted(t)],
        None => match e.ph {
            Some(p) => seq![quoted(p)],
            None => Seq::empty(),
        },
    };
    let href_part: Seq<Seq<char>> = match e.href {
        Some(h) => seq!["->"@ + h],
        None => Seq::empty(),
    };
    let bounds = "@"@ + decimal_signed(e.b[0] as int) + ","@ + decimal_signed(e.b[1] as int)
        + " "@ + decimal_signed(e.b[2] as int) + "x"@ + decimal_signed(e.b[3] as int);
    seq![head] + text_part + href_part + seq![bounds]
}

pub open spec fn compact_line(e: ElemSpec) -> Seq<char> {
    "["@ + join(compact_parts(e), " "@) + "]"@
}

/// The compact form: one bracketed line per element.
pub open spec fn compact_spec(es: Seq<ElemSpec>) -> Seq<char> {
    join(es.map_values(|e: ElemSpec| compact_line(e)), "\n"@)
}

fn quote(t: &str) -> (r: String)
    ensures
        r@ == quoted(t@),
{
    let mut s = to_owned("\"");
    push_str(&mut s, t);
    push_str(&mut s, "\"");
    s
}

fn compact_line_of(el: &SpatialElement) -> (r: String)
    ensures
        r@ == compact_line(el.ev()),
{
    let mut parts: Vec<String> = Vec::new();
    let mut head = String::new();
    let is_hidden = match el.hidden {
        Some(h) => h,
        None => false,
    };
    if is_hidden {
        push_str(&mut head, "!");
    }
    push_decimal(&mut head, el.id as u64);
    push_str(&mut head, ":");
    push_str(&mut head, el.tag.as_str());
    let ghost h0 = head@;
    match &el.input_type {
        Some(t) => {
            if !str_eq(t.as_str(), "text") {
                push_str(&mut head, ":");
                push_str(&mut head, t.as_str());
            }
        },
        None => {},
    }
    parts.push(head);
    match &el.text {
        Some(t) => {
            parts.push(quote(t.as_str()));
        },
        None => match &el.ph {
            Some(p) => {
                parts.push(quote(p.as_str()));
            },
            None => {},
        },
    }
    match &el.href {
        Some(h) => {
            let mut s = to_owned("->");
            push_str(&mut s, h.as_str());
            parts.push(s);
        },
        None => {},
    }
    let mut bounds = to_owned("@");
    push_decimal_signed(&mut bounds, el.b[0] as i64);
    push_str(&mut bounds, ",");
    push_decimal_signed(&mut bounds, el.b[1] as i64);
    push_str(&mut bounds, " ");
    push_decimal_signed(&mut bounds, el.b[2] as i64);
    push_str(&mut bounds, "x");
    push_decimal_signed(&mut bounds, el.b[3] as i64);
    parts.push(bounds);
    proof {
        let e = el.ev();
        let mark: Seq<char> = if e.hidden == Some(true) {
            "!"@
        } else {
            Seq::empty()
        };
        let head_s = mark + decimal(e.id) + ":"@ + e.tag + match e.input_type {
            Some(t) => if t != "text"@ {
                ":"@ + t
            } else {
                Seq::empty()
            },
            None => Seq::empty(),
        };
        assert(parts@[0]@ =~= head_s);
        let bounds_s = "@"@ + decimal_signed(e.b[0] as int) + ","@ + decimal_signed(e.b[1] as int)
            + " "@ + decimal_signed(e.b[2] as int) + "x"@ + decimal_signed(e.b[3] as int);
        assert(parts@.last()@ =~= bounds_s);
        assert(view_strings(parts@) =~= compact_parts(el.ev()));
    }
    let joined = join_strings(&parts, " ");
    let mut line = to_owned("[");
    push_str(&mut line, joined.as_str());
    push_str(&mut line, "]");
    line
}

/// The compact text form of a list of elements, for tight token budgets.
pub fn to_compact_string(els: &Vec<SpatialElement>) -> (r: String)
    ensures
        r@ == compact_spec(elems_view(els@)),
{
    let mut lines: Vec<String> = Vec::new();
    let mut i: usize = 0;
    while i < els.len()
        invariant
            i <= els@.len(),
            view_strings(lines@) == elems_view(els@).take(i as int).map_values(
                |e: ElemSpec| compact_line(e),
            ),
        decreases els.len() - i,
    {
        let l = compact_line_of(&els[i]);
        let ghost prev = lines@;
        lines.push(l);
        proof {
            assert(view_strings(lines@) =~= view_strings(prev).push(l@));
            assert(elems_view(els@).take(i + 1).map_values(|e: ElemSpec| compact_line(e))
                =~= elems_view(els@).take(i as int).map_values(|e: ElemSpec| compact_line(e)).push(
                compact_line(els@[i as int].ev()),
            ));
        }
        i = i + 1;
    }
    proof {
        assert(elems_view(els@).take(i as int) =~= elems_view(els@));
    }
    join_strings(&lines, "\n")
}


// ---------------------------------------------------------------------------
// Ids
// ---------------------------------------------------------------------------

pub open spec fn ids_from(es: Seq<ElemSpec>, c: nat) -> bool {
    forall|i: int| 0 <= i < es.len() ==> #[trigger] es[i].id == c + i
}

/// The listed elements of a subtree get the ids `c, c + 1, ...` in document
/// order, and the next id is `c` plus their number.
pub proof fn law_ids_consecutive(v: BoxView, c: nat, h: bool, l: Seq<(Seq<char>, Seq<char>)>)
    ensures
        elements_spec(v, c, h, l).1 == c + elements_spec(v, c, h, l).0.len(),
        ids_from(elements_spec(v, c, h, l).0, c),
    decreases v, 0int,
{
    let is_hidden = h || node_hidden(v);
    let n = v.children.len() as int;
    if !is_hidden && v.empty && v.node_type == NodeType::Element {
        lemma_ids_upto(v.children, n, c, false, l);
    } else if listed(v) {
        lemma_ids_upto(v.children, n, c + 1, is_hidden, l);
        let r = elements_upto(v.children, n, c + 1, is_hidden, l);
        let all = seq![element_of(v, c, l, is_hidden)] + r.0;
        assert forall|i: int| 0 <= i < all.len() implies #[trigger] all[i].id == c + i by {
            if i > 0 {
                assert(all[i] == r.0[i - 1]);
            }
        }
    } else {
        lemma_ids_upto(v.children, n, c, is_hidden, l);
    }
}

/// Every element listed inside a hidden subtree carries the hidden flag.
pub proof fn law_hidden_subtree_flagged(v: BoxView, c: nat, l: Seq<(Seq<char>, Seq<char>)>)
    ensures
        forall|i: int|
            0 <= i < elements_spec(v, c, true, l).0.len() ==> (#[trigger] elements_spec(
                v,
                c,
                true,
                l,
            ).0[i]).hidden == Some(true),
    decreases v, 0int,
{
    let n = v.children.len() as int;
    lemma_hidden_upto_flagged(v.children, n, c, l);
    if listed(v) {
        let r = elements_upto(v.children, n, c + 1, true, l);
        lemma_hidden_upto_flagged(v.children, n, c + 1, l);
        let all = seq![element_of(v, c, l, true)] + r.0;
        assert forall|i: int| 0 <= i < all.len() implies (#[trigger] all[i]).hidden == Some(true) by {
            if i > 0 {
                assert(all[i] == r.0[i - 1]);
            }
        }
    }
}

/// The elements of a page are numbered `1, 2, 3, ...` in the order they are
/// listed, so no two share an id.
pub proof fn law_page_ids_from_one(root: BoxView)
    ensures
        forall|k: int|
            0 <= k < elements_spec(root, 1, false, label_pairs(root)).0.len() ==> (#[trigger] elements_spec(
                root,
                1,
                false,
                label_pairs(root),
            ).0[k]).id == k + 1,
{
    law_ids_consecutive(root, 1, false, label_pairs(root));
}

/// Only an `input` element carries an input type.
pub proof fn law_input_type_only_on_inputs(v: BoxView, c: nat, h: bool, l: Seq<(Seq<char>, Seq<char>)>)
    ensures
        forall|i: int|
            0 <= i < elements_spec(v, c, h, l).0.len() && (#[trigger] elements_spec(v, c, h, l).0[i]).input_type
                is Some ==> elements_spec(v, c, h, l).0[i].tag == "input"@,
    decreases v, 0int,
{
    let is_hidden = h || node_hidden(v);
    let n = v.children.len() as int;
    if !is_hidden && v.empty && v.node_type == NodeType::Element {
        lemma_input_type_upto(v.children, n, c, false, l);
    } else if listed(v) {
        lemma_input_type_upto(v.children, n, c + 1, is_hidden, l);
        let r = elements_upto(v.children, n, c + 1, is_hidden, l);
        let all = seq![element_of(v, c, l, is_hidden)] + r.0;
        assert forall|i: int| 0 <= i < all.len() && (#[trigger] all[i]).input_type is Some implies all[i].tag
            == "input"@ by {
            if i > 0 {
                assert(all[i] == r.0[i - 1]);
            }
        }
    } else {
        lemma_input_type_upto(v.children, n, c, is_hidden, l);
    }
}

proof fn lemma_input_type_upto(cs: Seq<BoxView>, k: int, c: nat, h: bool, l: Seq<(Seq<char>, Seq<char>)>)
    ensures
        forall|i: int|
            0 <= i < elements_upto(cs, k, c, h, l).0.len() && (#[trigger] elements_upto(cs, k, c, h, l).0[i]).input_type
                is Some ==> elements_upto(cs, k, c, h, l).0[i].tag == "input"@,
    decreases cs, k,
{
    if 0 < k <= cs.len() {
        lemma_input_type_upto(cs, k - 1, c, h, l);
        let p = elements_upto(cs, k - 1, c, h, l);
        law_input_type_only_on_inputs(cs[k - 1], p.1, h, l);
        let q = elements_spec(cs[k - 1], p.1, h, l);
        let all = p.0 + q.0;
        assert forall|i: int| 0 <= i < all.len() && (#[trigger] all[i]).input_type is Some implies all[i].tag
            == "input"@ by {
            if i >= p.0.len() {
                assert(all[i] == q.0[i - p.0.len()]);
            } else {
                assert(all[i] == p.0[i]);
            }
        }
    }
}

proof fn lemma_hidden_upto_flagged(cs: Seq<BoxView>, k: int, c: nat, l: Seq<(Seq<char>, Seq<char>)>)
    ensures
        forall|i: int|
            0 <= i < elements_upto(cs, k, c, true, l).0.len() ==> (#[trigger] elements_upto(
                cs,
                k,
                c,
                true,
                l,
            ).0[i]).hidden == Some(true),
    decreases cs, k,
{
    if 0 < k <= cs.len() {
        lemma_hidden_upto_flagged(cs, k - 1, c, l);
        let p = elements_upto(cs, k - 1, c, true, l);
        law_hidden_subtree_flagged(cs[k - 1], p.1, l);
        let q = elements_spec(cs[k - 1], p.1, true, l);
        let all = p.0 + q.0;
        assert forall|i: int| 0 <= i < all.len() implies (#[trigger] all[i]).hidden == Some(true) by {
            if i >= p.0.len() {
                assert(all[i] == q.0[i - p.0.len()]);
            } else {
                assert(all[i] == p.0[i]);
            }
        }
    }
}

pub proof fn lemma_ids_upto(cs: Seq<BoxView>, k: int, c: nat, h: bool, l: Seq<(Seq<char>, Seq<char>)>)
    ensures
        elements_upto(cs, k, c, h, l).1 == c + elements_upto(cs, k, c, h, l).0.len(),
        ids_from(elements_upto(cs, k, c, h, l).0, c),
    decreases cs, k,
{
    if 0 < k <= cs.len() {
        lemma_ids_upto(cs, k - 1, c, h, l);
        let p = elements_upto(cs, k - 1, c, h, l);
        law_ids_consecutive(cs[k - 1], p.1, h, l);
        let q = elements_spec(cs[k - 1], p.1, h, l);
        let all = p.0 + q.0;
        assert forall|i: int| 0 <= i < all.len() implies #[trigger] all[i].id == c + i by {
            if i >= p.0.len() {
                assert(all[i] == q.0[i - p.0.len()]);
            } else {
                assert(all[i] == p.0[i]);
            }
        }
    }
}


// ---------------------------------------------------------------------------
// Roles of form controls
// ---------------------------------------------------------------------------

/// Without an explicit `role`, an `<input>` takes its role from its type:
/// a checkbox is a `checkbox`, a radio button a `radio`, a submit or
/// button input a `button`, a search field a `searchbox`, and any other
/// type (or none) a `textbox`; so no checkable input gets a text-entry role.
pub proof fn law_input_roles(attrs: Seq<(Seq<char>, Seq<char>)>)
    requires
        attr_lookup(attrs, "role"@) is None,
    ensures
        attr_lookup(attrs, "type"@) == Some("checkbox"@) ==> role_spec("input"@, attrs) == Some(
            "checkbox"@,
        ),
        attr_lookup(attrs, "type"@) == Some("radio"@) ==> role_spec("input"@, attrs) == Some(
            "radio"@,
        ),
        attr_lookup(attrs, "type"@) == Some("submit"@) ==> role_spec("input"@, attrs) == Some(
            "button"@,
        ),
        attr_lookup(attrs, "type"@) == Some("search"@) ==> role_spec("input"@, attrs) == Some(
            "searchbox"@,
        ),
        attr_lookup(attrs, "type"@) is None ==> role_spec("input"@, attrs) == Some("textbox"@),
        (attr_lookup(attrs, "type"@) == Some("checkbox"@) || attr_lookup(attrs, "type"@) == Some(
            "radio"@,
        )) ==> role_spec("input"@, attrs) != Some("textbox"@) && role_spec("input"@, attrs) != Some(
            "searchbox"@,
        ),
{
    reveal_strlit("input");
    reveal_strlit("a");
    reveal_strlit("button");
    reveal_strlit("checkbox");
    reveal_strlit("radio");
    reveal_strlit("submit");
    reveal_strlit("search");
    reveal_strlit("text");
    reveal_strlit("textbox");
    reveal_strlit("searchbox");
    assert("input"@.len() != "a"@.len() && "input"@.len() != "button"@.len());
    assert("submit"@.len() != "checkbox"@.len() && "submit"@.len() != "radio"@.len());
    assert("search"@ != "submit"@) by {
        assert("search"@[1] != "submit"@[1]);
    }
    assert("search"@.len() != "checkbox"@.len() && "search"@.len() != "radio"@.len());
    assert("text"@.len() != "checkbox"@.len() && "text"@.len() != "radio"@.len());
    assert("text"@.len() != "submit"@.len() && "text"@.len() != "button"@.len());
    assert("text"@.len() != "search"@.len());
    assert("checkbox"@.len() != "textbox"@.len() && "checkbox"@.len() != "searchbox"@.len());
    assert("radio"@.len() != "textbox"@.len() && "radio"@.len() != "searchbox"@.len());
}

/// An explicit `role` attribute is the element's role whatever its tag;
/// without one, links are `link`, buttons `button`, selects `combobox`,
/// text areas `textbox`, `h1`-`h6` `heading`, and the landmarks `nav`,
/// `header`, `footer`, `main`, `aside` and `section` are `navigation`,
/// `banner`, `contentinfo`, `main`, `complementary` and `region`; a `div`,
/// `span` or `p` has no role.
proof fn lemma_heading_role(tag: Seq<char>, attrs: Seq<(Seq<char>, Seq<char>)>)
    requires
        attr_lookup(attrs, "role"@) is None,
        heading_tag(tag),
    ensures
        role_spec(tag, attrs) == Some("heading"@),
{
    reveal_strlit("a");
    reveal_strlit("button");
    reveal_strlit("input");
    reveal_strlit("select");
    reveal_strlit("textarea");
    reveal_strlit("h1");
    reveal_strlit("h2");
    reveal_strlit("h3");
    reveal_strlit("h4");
    reveal_strlit("h5");
    reveal_strlit("h6");
    assert(tag.len() == 2);
    assert("a"@.len() == 1 && "button"@.len() == 6 && "input"@.len() == 5 && "select"@.len() == 6
        && "textarea"@.len() == 8);
}

proof fn lemma_role_of_a(attrs: Seq<(Seq<char>, Seq<char>)>)
    requires
        attr_lookup(attrs, "role"@) is None,
    ensures
        role_spec("a"@, attrs) == Some("link"@),
{
    reveal_strlit("a");
}

proof fn lemma_role_of_button(attrs: Seq<(Seq<char>, Seq<char>)>)
    requires
        attr_lookup(attrs, "role"@) is None,
    ensures
        role_spec("button"@, attrs) == Some("button"@),
{
    reveal_strlit("a");
    reveal_strlit("button");
    assert("button"@.len() != "a"@.len());
}

proof fn lemma_role_of_select(attrs: Seq<(Seq<char>, Seq<char>)>)
    requires
        attr_lookup(attrs, "role"@) is None,
    ensures
        role_spec("select"@, attrs) == Some("combobox"@),
{
    reveal_strlit("a");
    reveal_strlit("button");
    reveal_strlit("input");
    reveal_strlit("select");
    assert("select"@.len() != "a"@.len());
    assert("select"@ != "button"@) by {
        assert("select"@[0] != "button"@[0]);
    }
    assert("select"@.len() != "input"@.len());
}

proof fn lemma_role_of_textarea(attrs: Seq<(Seq<char>, Seq<char>)>)
    requires
        attr_lookup(attrs, "role"@) is None,
    ensures
        role_spec("textarea"@, attrs) == Some("textbox"@),
{
    reveal_strlit("a");
    reveal_strlit("button");
    reveal_strlit("input");
    reveal_strlit("select");
    reveal_strlit("textarea");
    assert("textarea"@.len() != "a"@.len());
    assert("textarea"@.len() != "button"@.len());
    assert("textarea"@.len() != "input"@.len());
    assert("textarea"@.len() != "select"@.len());
}

proof fn lemma_role_of_nav(attrs: Seq<(Seq<char>, Seq<char>)>)
    requires
        attr_lookup(attrs, "role"@) is None,
    ensures
        role_spec("nav"@, attrs) == Some("navigation"@),
{
    reveal_strlit("a");
    reveal_strlit("button");
    reveal_strlit("input");
    reveal_strlit("select");
    reveal_strlit("textarea");
    reveal_strlit("h1");
    reveal_strlit("h2");
    reveal_strlit("h3");
    reveal_strlit("h4");
    reveal_strlit("h5");
    reveal_strlit("h6");
    reveal_strlit("nav");
    assert("nav"@.len() != "a"@.len());
    assert("nav"@.len() != "button"@.len());
    assert("nav"@.len() != "input"@.len());
    assert("nav"@.len() != "select"@.len());
    assert("nav"@.len() != "textarea"@.len());
    assert("nav"@.len() != "h1"@.len());
    assert("nav"@.len() != "h2"@.len());
    assert("nav"@.len() != "h3"@.len());
    assert("nav"@.len() != "h4"@.len());
    assert("nav"@.len() != "h5"@.len());
    assert("nav"@.len() != "h6"@.len());
}

proof fn lemma_role_of_header(attrs: Seq<(Seq<char>, Seq<char>)>)
    requires
        attr_lookup(attrs, "role"@) is None,
    ensures
        role_spec("header"@, attrs) == Some("banner"@),
{
    reveal_strlit("a");
    reveal_strlit("button");
    reveal_strlit("input");
    reveal_strlit("select");
    reveal_strlit("textarea");
    reveal_strlit("h1");
    reveal_strlit("h2");
    reveal_strlit("h3");
    reveal_strlit("h4");
    reveal_strlit("h5");
    reveal_strlit("h6");
    reveal_strlit("nav");
    reveal_strlit("header");
    assert("header"@.len() != "a"@.len());
    assert("header"@ != "button"@) by {
        assert("header"@[0] != "button"@[0]);
    }
    assert("header"@.len() != "input"@.len());
    assert("header"@ != "select"@) by {
        assert("header"@[0] != "select"@[0]);
    }
    assert("header"@.len() != "textarea"@.len());
    assert("header"@.len() != "h1"@.len());
    assert("header"@.len() != "h2"@.len());
    assert("header"@.len() != "h3"@.len());
    assert("header"@.len() != "h4"@.len());
    assert("header"@.len() != "h5"@.len());
    assert("header"@.len() != "h6"@.len());
    assert("header"@.len() != "nav"@.len());
}

proof fn lemma_role_of_footer(attrs: Seq<(Seq<char>, Seq<char>)>)
    requires
        attr_lookup(attrs, "role"@) is None,
    ensures
        role_spec("footer"@, attrs) == Some("contentinfo"@),
{
    reveal_strlit("a");
    reveal_strlit("button");
    reveal_strlit("input");
    reveal_strlit("select");
    reveal_strlit("textarea");
    reveal_strlit("h1");
    reveal_strlit("h2");
    reveal_strlit("h3");
    reveal_strlit("h4");
    reveal_strlit("h5");
    reveal_strlit("h6");
    reveal_strlit("nav");
    reveal_strlit("header");
    reveal_strlit("footer");
    assert("footer"@.len() != "a"@.len());
    assert("footer"@ != "button"@) by {
        assert("footer"@[0] != "button"@[0]);
    }
    assert("footer"@.len() != "input"@.len());
    assert("footer"@ != "select"@) by {
        assert("footer"@[0] != "select"@[0]);
    }
    assert("footer"@.len() != "textarea"@.len());
    assert("footer"@.len() != "h1"@.len());
    assert("footer"@.len() != "h2"@.len());
    assert("footer"@.len() != "h3"@.len());
    assert("footer"@.len() != "h4"@.len());
    assert("footer"@.len() != "h5"@.len());
    assert("footer"@.len() != "h6"@.len());
    assert("footer"@.len() != "nav"@.len());
    assert("footer"@ != "header"@) by {
        assert("footer"@[0] != "header"@[0]);
    }
}

proof fn lemma_role_of_main(attrs: Seq<(Seq<char>, Seq<char>)>)
    requires
        attr_lookup(attrs, "role"@) is None,
    ensures
        role_spec("main"@, attrs) == Some("main"@),
{
    reveal_strlit("a");
    reveal_strlit("button");
    reveal_strlit("input");
    reveal_strlit("select");
    reveal_strlit("textarea");
    reveal_strlit("h1");
    reveal_strlit("h2");
    reveal_strlit("h3");
    reveal_strlit("h4");
    reveal_strlit("h5");
    reveal_strlit("h6");
    reveal_strlit("nav");
    reveal_strlit("header");
    reveal_strlit("footer");
    reveal_strlit("main");
    assert("main"@.len() != "a"@.len());
    assert("main"@.len() != "button"@.len());
    assert("main"@.len() != "input"@.len());
    assert("main"@.len() != "select"@.len());
    assert("main"@.len() != "textarea"@.len());
    assert("main"@.len() != "h1"@.len());
    assert("main"@.len() != "h2"@.len());
    assert("main"@.len() != "h3"@.len());
    assert("main"@.len() != "h4"@.len());
    assert("main"@.len() != "h5"@.len());
    assert("main"@.len() != "h6"@.len());
    assert("main"@.len() != "nav"@.len());
    assert("main"@.len() != "header"@.len());
    assert("main"@.len() != "footer"@.len());
}

proof fn lemma_role_of_aside(attrs: Seq<(Seq<char>, Seq<char>)>)
    requires
        attr_lookup(attrs, "role"@) is None,
    ensures
        role_spec("aside"@, attrs) == Some("complementary"@),
{
    reveal_strlit("a");
    reveal_strlit("button");
    reveal_strlit("input");
    reveal_strlit("select");
    reveal_strlit("textarea");
    reveal_strlit("h1");
    reveal_strlit("h2");
    reveal_strlit("h3");
    reveal_strlit("h4");
    reveal_strlit("h5");
    reveal_strlit("h6");
    reveal_strlit("nav");
    reveal_strlit("header");
    reveal_strlit("footer");
    reveal_strlit("main");
    reveal_strlit("aside");
    assert("aside"@.len() != "a"@.len());
    assert("aside"@.len() != "button"@.len());
    assert("aside"@ != "input"@) by {
        assert("aside"@[0] != "input"@[0]);
    }
    assert("aside"@.len() != "select"@.len());
    assert("aside"@.len() != "textarea"@.len());
    assert("aside"@.len() != "h1"@.len());
    assert("aside"@.len() != "h2"@.len());
    assert("aside"@.len() != "h3"@.len());
    assert("aside"@.len() != "h4"@.len());
    assert("aside"@.len() != "h5"@.len());
    assert("aside"@.len() != "h6"@.len());
    assert("aside"@.len() != "nav"@.len());
    assert("aside"@.len() != "header"@.len());
    assert("aside"@.len() != "footer"@.len());
    assert("aside"@.len() != "main"@.len());
}

proof fn lemma_role_of_section(attrs: Seq<(Seq<char>, Seq<char>)>)
    requires
        attr_lookup(attrs, "role"@) is None,
    ensures
        role_spec("section"@, attrs) == Some("region"@),
{
    reveal_strlit("a");
    reveal_strlit("button");
    reveal_strlit("input");
    reveal_strlit("select");
    reveal_strlit("textarea");
    reveal_strlit("h1");
    reveal_strlit("h2");
    reveal_strlit("h3");
    reveal_strlit("h4");
    reveal_strlit("h5");
    reveal_strlit("h6");
    reveal_strlit("nav");
    reveal_strlit("header");
    reveal_strlit("footer");
    reveal_strlit("main");
    reveal_strlit("aside");
    reveal_strlit("section");
    assert("section"@.len() != "a"@.len());
    assert("section"@.len() != "button"@.len());
    assert("section"@.len() != "input"@.len());
    assert("section"@.len() != "select"@.len());
    assert("section"@.len() != "textarea"@.len());
    assert("section"@.len() != "h1"@.len());
    assert("section"@.len() != "h2"@.len());
    assert("section"@.len() != "h3"@.len());
    assert("section"@.len() != "h4"@.len());
    assert("section"@.len() != "h5"@.len());
    assert("section"@.len() != "h6"@.len());
    assert("section"@.len() != "nav"@.len());
    assert("section"@.len() != "header"@.len());
    assert("section"@.len() != "footer"@.len());
    assert("section"@.len() != "main"@.len());
    assert("section"@.len() != "aside"@.len());
}

proof fn lemma_role_of_div(attrs: Seq<(Seq<char>, Seq<char>)>)
    requires
        attr_lookup(attrs, "role"@) is None,
    ensures
        role_spec("div"@, attrs) is None,
{
    reveal_strlit("a");
    reveal_strlit("button");
    reveal_strlit("input");
    reveal_strlit("select");
    reveal_strlit("textarea");
    reveal_strlit("h1");
    reveal_strlit("h2");
    reveal_strlit("h3");
    reveal_strlit("h4");
    reveal_strlit("h5");
    reveal_strlit("h6");
    reveal_strlit("nav");
    reveal_strlit("header");
    reveal_strlit("footer");
    reveal_strlit("main");
    reveal_strlit("aside");
    reveal_strlit("section");
    reveal_strlit("div");
    assert("div"@.len() != "a"@.len());
    assert("div"@.len() != "button"@.len());
    assert("div"@.len() != "input"@.len());
    assert("div"@.len() != "select"@.len());
    assert("div"@.len() != "textarea"@.len());
    assert("div"@.len() != "h1"@.len());
    assert("div"@.len() != "h2"@.len());
    assert("div"@.len() != "h3"@.len());
    assert("div"@.len() != "h4"@.len());
    assert("div"@.len() != "h5"@.len());
    assert("div"@.len() != "h6"@.len());
    assert("div"@ != "nav"@) by {
        assert("div"@[0] != "nav"@[0]);
    }
    assert("div"@.len() != "header"@.len());
    assert("div"@.len() != "footer"@.len());
    assert("div"@.len() != "main"@.len());
    assert("div"@.len() != "aside"@.len());
    assert("div"@.len() != "section"@.len());
}

proof fn lemma_role_of_span(attrs: Seq<(Seq<char>, Seq<char>)>)
    requires
        attr_lookup(attrs, "role"@) is None,
    ensures
        role_spec("span"@, attrs) is None,
{
    reveal_strlit("a");
    reveal_strlit("button");
    reveal_strlit("input");
    reveal_strlit("select");
    reveal_strlit("textarea");
    reveal_strlit("h1");
    reveal_strlit("h2");
    reveal_strlit("h3");
    reveal_strlit("h4");
    reveal_strlit("h5");
    reveal_strlit("h6");
    reveal_strlit("nav");
    reveal_strlit("header");
    reveal_strlit("footer");
    reveal_strlit("main");
    reveal_strlit("aside");
    reveal_strlit("section");
    reveal_strlit("span");
    assert("span"@.len() != "a"@.len());
    assert("span"@.len() != "button"@.len());
    assert("span"@.len() != "input"@.len());
    assert("span"@.len() != "select"@.len());
    assert("span"@.len() != "textarea"@.len());
    assert("span"@.len() != "h1"@.len());
    assert("span"@.len() != "h2"@.len());
    assert("span"@.len() != "h3"@.len());
    assert("span"@.len() != "h4"@.len());
    assert("span"@.len() != "h5"@.len());
    assert("span"@.len() != "h6"@.len());
    assert("span"@.len() != "nav"@.len());
    assert("span"@.len() != "header"@.len());
    assert("span"@.len() != "footer"@.len());
    assert("span"@ != "main"@) by {
        assert("span"@[0] != "main"@[0]);
    }
    assert("span"@.len() != "aside"@.len());
    assert("span"@.len() != "section"@.len());
}

proof fn lemma_role_of_p(attrs: Seq<(Seq<char>, Seq<char>)>)
    requires
        attr_lookup(attrs, "role"@) is None,
    ensures
        role_spec("p"@, attrs) is None,
{
    reveal_strlit("a");
    reveal_strlit("button");
    reveal_strlit("input");
    reveal_strlit("select");
    reveal_strlit("textarea");
    reveal_strlit("h1");
    reveal_strlit("h2");
    reveal_strlit("h3");
    reveal_strlit("h4");
    reveal_strlit("h5");
    reveal_strlit("h6");
    reveal_strlit("nav");
    reveal_strlit("header");
    reveal_strlit("footer");
    reveal_strlit("main");
    reveal_strlit("aside");
    reveal_strlit("section");
    reveal_strlit("p");
    assert("p"@ != "a"@) by {
        assert("p"@[0] != "a"@[0]);
    }
    assert("p"@.len() != "button"@.len());
    assert("p"@.len() != "input"@.len());
    assert("p"@.len() != "select"@.len());
    assert("p"@.len() != "textarea"@.len());
    assert("p"@.len() != "h1"@.len());
    assert("p"@.len() != "h2"@.len());
    assert("p"@.len() != "h3"@.len());
    assert("p"@.len() != "h4"@.len());
    assert("p"@.len() != "h5"@.len());
    assert("p"@.len() != "h6"@.len());
    assert("p"@.len() != "nav"@.len());
    assert("p"@.len() != "header"@.len());
    assert("p"@.len() != "footer"@.len());
    assert("p"@.len() != "main"@.len());
    assert("p"@.len() != "aside"@.len());
    assert("p"@.len() != "section"@.len());
}

pub proof fn law_element_roles(tag: Seq<char>, attrs: Seq<(Seq<char>, Seq<char>)>)
    ensures
        attr_lookup(attrs, "role"@) matches Some(r) ==> role_spec(tag, attrs) == Some(r),
        attr_lookup(attrs, "role"@) is None ==> (tag == "a"@ ==> role_spec(tag, attrs) == Some("link"@)),
        attr_lookup(attrs, "role"@) is None ==> (tag == "button"@ ==> role_spec(tag, attrs) == Some("button"@)),
        attr_lookup(attrs, "role"@) is None ==> (tag == "select"@ ==> role_spec(tag, attrs) == Some("combobox"@)),
        attr_lookup(attrs, "role"@) is None ==> (tag == "textarea"@ ==> role_spec(tag, attrs) == Some("textbox"@)),
        attr_lookup(attrs, "role"@) is None ==> (tag == "h1"@ || tag == "h2"@ || tag == "h3"@ || tag == "h4"@ || tag == "h5"@ || tag == "h6"@ ==> role_spec(tag, attrs) == Some("heading"@)),
        attr_lookup(attrs, "role"@) is None ==> (tag == "nav"@ ==> role_spec(tag, attrs) == Some("navigation"@)),
        attr_lookup(attrs, "role"@) is None ==> (tag == "header"@ ==> role_spec(tag, attrs) == Some("banner"@)),
        attr_lookup(attrs, "role"@) is None ==> (tag == "footer"@ ==> role_spec(tag, attrs) == Some("contentinfo"@)),
        attr_lookup(attrs, "role"@) is None ==> (tag == "main"@ ==> role_spec(tag, attrs) == Some("main"@)),
        attr_lookup(attrs, "role"@) is None ==> (tag == "aside"@ ==> role_spec(tag, attrs) == Some("complementary"@)),
        attr_lookup(attrs, "role"@) is None ==> (tag == "section"@ ==> role_spec(tag, attrs) == Some("region"@)),
        attr_lookup(attrs, "role"@) is None ==> (tag == "div"@ || tag == "span"@ || tag == "p"@ ==> role_spec(tag, attrs) is None),
{
    if attr_lookup(attrs, "role"@) is None {
        if tag == "a"@ {
            lemma_role_of_a(attrs);
        }
        if tag == "button"@ {
            lemma_role_of_button(attrs);
        }
        if tag == "select"@ {
            lemma_role_of_select(attrs);
        }
        if tag == "textarea"@ {
            lemma_role_of_textarea(attrs);
        }
        if tag == "nav"@ {
            lemma_role_of_nav(attrs);
        }
        if tag == "header"@ {
            lemma_role_of_header(attrs);
        }
        if tag == "footer"@ {
            lemma_role_of_footer(attrs);
        }
        if tag == "main"@ {
            lemma_role_of_main(attrs);
        }
        if tag == "aside"@ {
            lemma_role_of_aside(attrs);
        }
        if tag == "section"@ {
            lemma_role_of_section(attrs);
        }
        if tag == "div"@ {
            lemma_role_of_div(attrs);
        }
        if tag == "span"@ {
            lemma_role_of_span(attrs);
        }
        if tag == "p"@ {
            lemma_role_of_p(attrs);
        }
        if heading_tag(tag) {
            lemma_heading_role(tag, attrs);
        }
    }
}

} // verus!
