//! The document tree: element, text and document nodes with their
//! attributes, and the text a subtree shows.
use vstd::prelude::*;

use crate::text::{
    chars_of, copy_string, is_ws, join, join_strings, lemma_trim_idem, lemma_trim_props,
    no_lead_ws, no_trail_ws, push_char, push_str, str_eq, to_owned, trim, trim_str, view_strings,
};

verus! {

broadcast use vstd::string::group_string_axioms;

#[derive(Debug, Clone, Copy, PartialEq, Eq, Structural)]
pub enum NodeType {
    Element,
    Text,
    Document,
}

/// The pairs whose name is not `name`, in order (`HashMap::remove` on a
/// list of pairs).
pub fn without_attr(attrs: &Vec<(String, String)>, name: &str) -> (r: Vec<(String, String)>)
    ensures
        view_attrs(r@) == attrs_remove(view_attrs(attrs@), name@),
{
    let ghost a = view_attrs(attrs@);
    let mut kept: Vec<(String, String)> = Vec::new();
    let mut i: usize = 0;
    while i < attrs.len()
        invariant
            a == view_attrs(attrs@),
            i <= attrs@.len(),
            view_attrs(kept@) == attrs_remove(a.take(i as int), name@),
        decreases attrs.len() - i,
    {
        proof {
            assert(a.take(i + 1).drop_last() =~= a.take(i as int));
            reveal_with_fuel(Seq::<_>::filter, 1);
        }
        if !str_eq(attrs[i].0.as_str(), name) {
            let k = copy_string(&attrs[i].0);
            let v = copy_string(&attrs[i].1);
            let ghost prev = kept@;
            kept.push((k, v));
            proof {
                assert(view_attrs(kept@) =~= view_attrs(prev).push(a[i as int]));
            }
        }
        i = i + 1;
    }
    proof {
        assert(a.take(i as int) =~= a);
    }
    kept
}

/// A node of the document tree. Attributes keep their document order; a
/// name is looked up by its first occurrence.
#[derive(Debug)]
pub struct DomNode {
    pub tag: String,
    pub attributes: Vec<(String, String)>,
    pub text: String,
    pub children: Vec<DomNode>,
    pub node_type: NodeType,
}

/// The mathematical value of a `DomNode`.
pub struct DomView {
    pub tag: Seq<char>,
    pub attrs: Seq<(Seq<char>, Seq<char>)>,
    pub text: Seq<char>,
    pub children: Seq<DomView>,
    pub node_type: NodeType,
}

pub open spec fn view_attrs(a: Seq<(String, String)>) -> Seq<(Seq<char>, Seq<char>)> {
    a.map_values(|p: (String, String)| (p.0@, p.1@))
}

impl DomNode {
    pub open spec fn dv(&self) -> DomView
        decreases self,
    {
        DomView {
            tag: self.tag@,
            attrs: view_attrs(self.attributes@),
            text: self.text@,
            children: Seq::new(
                self.children@.len(),
                |i: int|
                    if 0 <= i < self.children@.len() {
                        self.children@[i].dv()
                    } else {
                        arbitrary()
                    },
            ),
            node_type: self.node_type,
        }
    }
}

pub open spec fn children_views(c: Seq<DomNode>) -> Seq<DomView> {
    Seq::new(c.len(), |i: int| c[i].dv())
}

pub proof fn lemma_dv_children(n: &DomNode)
    ensures
        n.dv().children == children_views(n.children@),
        n.dv().children.len() == n.children@.len(),
{
    assert(n.dv().children =~= children_views(n.children@));
}

// ---------------------------------------------------------------------------
// Attributes
// ---------------------------------------------------------------------------

/// The value of the first attribute called `name`.
pub open spec fn attr_lookup(attrs: Seq<(Seq<char>, Seq<char>)>, name: Seq<char>) -> Option<
    Seq<char>,
>
    decreases attrs.len(),
{
    if attrs.len() == 0 {
        None
    } else {
        match attr_lookup(attrs.drop_last(), name) {
            Some(v) => Some(v),
            None => if attrs.last().0 == name {
                Some(attrs.last().1)
            } else {
                None
            },
        }
    }
}

pub proof fn lemma_lookup_prefix(a: Seq<(Seq<char>, Seq<char>)>, name: Seq<char>, k: int)
    requires
        0 <= k <= a.len(),
        attr_lookup(a.take(k), name) is Some,
    ensures
        attr_lookup(a, name) == attr_lookup(a.take(k), name),
    decreases a.len(),
{
    if k == a.len() {
        assert(a.take(k) =~= a);
    } else {
        assert(a.drop_last().take(k) =~= a.take(k));
        lemma_lookup_prefix(a.drop_last(), name, k);
    }
}

pub proof fn lemma_lookup_none(a: Seq<(Seq<char>, Seq<char>)>, name: Seq<char>)
    ensures
        attr_lookup(a, name) is None <==> forall|i: int| 0 <= i < a.len() ==> a[i].0 != name,
    decreases a.len(),
{
    if a.len() > 0 {
        lemma_lookup_none(a.drop_last(), name);
        if attr_lookup(a.drop_last(), name) is None && a.last().0 != name {
            assert forall|i: int| 0 <= i < a.len() implies a[i].0 != name by {
                if i < a.len() - 1 {
                    assert(a.drop_last()[i] == a[i]);
                }
            }
        }
        if attr_lookup(a.drop_last(), name) is Some {
            let i = choose|i: int| 0 <= i < a.drop_last().len() && a.drop_last()[i].0 == name;
            assert(a[i] == a.drop_last()[i]);
        }
    }
}

/// Index of the first pair called `name` in a list of attributes.
pub fn attr_position(attrs: &Vec<(String, String)>, name: &str) -> (r: Option<usize>)
    ensures
        r matches Some(i) ==> i < attrs@.len() && attrs@[i as int].0@ == name@ && attr_lookup(
            view_attrs(attrs@),
            name@,
        ) == Some(attrs@[i as int].1@) && forall|j: int| 0 <= j < i ==> attrs@[j].0@ != name@,
        r is None ==> attr_lookup(view_attrs(attrs@), name@) is None,
{
    let ghost a = view_attrs(attrs@);
    let mut i: usize = 0;
    while i < attrs.len()
        invariant
            a == view_attrs(attrs@),
            i <= attrs@.len(),
            attr_lookup(a.take(i as int), name@) is None,
        decreases attrs.len() - i,
    {
        proof {
            assert(a.take(i + 1).drop_last() =~= a.take(i as int));
        }
        if str_eq(attrs[i].0.as_str(), name) {
            proof {
                lemma_lookup_prefix(a, name@, i + 1);
                lemma_lookup_none(a.take(i as int), name@);
                assert forall|j: int| 0 <= j < i implies attrs@[j].0@ != name@ by {
                    assert(a.take(i as int)[j] == a[j]);
                }
            }
            return Some(i);
        }
        i = i + 1;
    }
    proof {
        assert(a.take(i as int) =~= a);
    }
    None
}

/// The value of the first pair called `name`.
pub fn lookup_attr<'a>(attrs: &'a Vec<(String, String)>, name: &str) -> (r: Option<&'a str>)
    ensures
        r matches Some(v) ==> attr_lookup(view_attrs(attrs@), name@) == Some(v@),
        r is None ==> attr_lookup(view_attrs(attrs@), name@) is None,
{
    match attr_position(attrs, name) {
        Some(i) => Some(attrs[i].1.as_str()),
        None => None,
    }
}

/// Sets `name` to `value` in a list of attributes: the first pair with that
/// name takes the new value, or a pair is appended.
pub fn attrs_set(attrs: &mut Vec<(String, String)>, name: &str, value: &str)
    ensures
        view_attrs(final(attrs)@) == attrs_insert(view_attrs(old(attrs)@), name@, value@),
{
    let ghost a = view_attrs(attrs@);
    match attr_position(attrs, name) {
        Some(i) => {
            attrs.set(i, (to_owned(name), to_owned(value)));
            proof {
                let k = i as int;
                lemma_lookup_none(a, name@);
                assert(a[k].0 == name@);
                let c = choose|c: int|
                    0 <= c < a.len() && a[c].0 == name@ && forall|j: int|
                        0 <= j < c ==> a[j].0 != name@;
                assert(c == k);
                assert(view_attrs(attrs@) =~= a.update(k, (name@, value@)));
            }
        },
        None => {
            attrs.push((to_owned(name), to_owned(value)));
            proof {
                lemma_lookup_none(a, name@);
                assert(view_attrs(attrs@) =~= a.push((name@, value@)));
            }
        },
    }
}

/// Attribute lookup in a node's view.
pub open spec fn attr_of(n: DomView, name: Seq<char>) -> Option<Seq<char>> {
    attr_lookup(n.attrs, name)
}

pub open spec fn has_attr_spec(n: DomView, name: Seq<char>) -> bool {
    attr_of(n, name) is Some
}

/// Inserting into the attribute list: the first entry with that name takes
/// the value, or the pair is appended (`HashMap::insert`).
pub open spec fn attrs_insert(a: Seq<(Seq<char>, Seq<char>)>, name: Seq<char>, value: Seq<char>) -> Seq<
    (Seq<char>, Seq<char>),
> {
    if exists|i: int| 0 <= i < a.len() && a[i].0 == name {
        let i = choose|i: int|
            0 <= i < a.len() && a[i].0 == name && forall|j: int| 0 <= j < i ==> a[j].0 != name;
        a.update(i, (name, value))
    } else {
        a.push((name, value))
    }
}

/// No two attributes share a name.
pub open spec fn attrs_unique(a: Seq<(Seq<char>, Seq<char>)>) -> bool {
    forall|i: int, j: int| 0 <= i < j < a.len() ==> #[trigger] a[i].0 != #[trigger] a[j].0
}

/// Setting an attribute keeps the names distinct.
pub proof fn law_insert_keeps_unique(a: Seq<(Seq<char>, Seq<char>)>, name: Seq<char>, value: Seq<char>)
    requires
        attrs_unique(a),
    ensures
        attrs_unique(attrs_insert(a, name, value)),
{
    let r = attrs_insert(a, name, value);
    if exists|i: int| 0 <= i < a.len() && a[i].0 == name {
        let k = choose|i: int|
            0 <= i < a.len() && a[i].0 == name && forall|j: int| 0 <= j < i ==> a[j].0 != name;
        assert(exists|i: int|
            0 <= i < a.len() && a[i].0 == name && forall|j: int| 0 <= j < i ==> a[j].0 != name) by {
            let w = choose|i: int| 0 <= i < a.len() && a[i].0 == name;
            assert(a[w].0 == name);
            if !(forall|j: int| 0 <= j < w ==> a[j].0 != name) {
                let j0 = choose|j: int| 0 <= j < w && a[j].0 == name;
                assert(a[j0].0 == a[w].0);
            }
        }
        assert forall|i: int, j: int| 0 <= i < j < r.len() implies #[trigger] r[i].0 != #[trigger] r[j].0 by {
            assert(r[i].0 == a[i].0);
            assert(r[j].0 == a[j].0);
        }
    } else {
        assert forall|i: int, j: int| 0 <= i < j < r.len() implies #[trigger] r[i].0 != #[trigger] r[j].0 by {
            if j == a.len() {
                assert(r[i] == a[i]);
            } else {
                assert(r[i] == a[i] && r[j] == a[j]);
            }
        }
    }
}

/// Removing an attribute keeps the names distinct.
pub proof fn law_remove_keeps_unique(a: Seq<(Seq<char>, Seq<char>)>, name: Seq<char>)
    requires
        attrs_unique(a),
    ensures
        attrs_unique(attrs_remove(a, name)),
    decreases a.len(),
{
    let f = key_other_than(name);
    if a.len() > 0 {
        law_remove_keeps_unique(a.drop_last(), name);
        assert(a.drop_last().filter(f) == attrs_remove(a.drop_last(), name));
        let r = attrs_remove(a, name);
        let p = a.drop_last().filter(f);
        reveal(Seq::filter);
        if f(a.last()) {
            assert(r == p.push(a.last()));
            assert forall|x: int| 0 <= x < p.len() implies #[trigger] p[x].0 != a.last().0 by {
                assert(p.contains(p[x]));
                a.drop_last().lemma_filter_contains_rev(f, p[x]);
                let y = choose|y: int| 0 <= y < a.drop_last().len() && a.drop_last()[y] == p[x];
                assert(a[y] == p[x]);
                assert(a[y].0 != a[a.len() - 1].0);
            }
            assert forall|i: int, j: int| 0 <= i < j < r.len() implies #[trigger] r[i].0 != #[trigger] r[j].0 by {
                if j == p.len() {
                    assert(r[i] == p[i]);
                } else {
                    assert(r[i] == p[i] && r[j] == p[j]);
                }
            }
        } else {
            assert(r == p);
        }
    }
}

/// Removing every entry with that name (`HashMap::remove`).
pub open spec fn attrs_remove(a: Seq<(Seq<char>, Seq<char>)>, name: Seq<char>) -> Seq<
    (Seq<char>, Seq<char>),
> {
    a.filter(key_other_than(name))
}

/// Pairs whose name is not `name`.
pub open spec fn key_other_than(name: Seq<char>) -> spec_fn((Seq<char>, Seq<char>)) -> bool {
    |p: (Seq<char>, Seq<char>)| p.0 != name
}

// ---------------------------------------------------------------------------
// Text content
// ---------------------------------------------------------------------------

/// The non-empty trimmed texts of the text nodes of a subtree, in
/// document order; a `style` element's stylesheet is no text of the page.
pub open spec fn text_pieces(n: DomView) -> Seq<Seq<char>>
    decreases n, 0int,
{
    if n.node_type == NodeType::Text {
        if trim(n.text).len() > 0 {
            seq![trim(n.text)]
        } else {
            Seq::empty()
        }
    } else if n.node_type == NodeType::Element && n.tag == "style"@ {
        Seq::empty()
    } else {
        text_pieces_upto(n.children, n.children.len() as int)
    }
}

pub open spec fn text_pieces_upto(cs: Seq<DomView>, k: int) -> Seq<Seq<char>>
    decreases cs, k,
{
    if k <= 0 || k > cs.len() {
        Seq::empty()
    } else {
        text_pieces_upto(cs, k - 1) + text_pieces(cs[k - 1])
    }
}

/// The visible text of a subtree: its text pieces joined by single spaces.
pub open spec fn text_content_spec(n: DomView) -> Seq<char> {
    join(text_pieces(n), seq![' '])
}

/// Every piece is non-empty and has no surrounding whitespace.
pub open spec fn pieces_trimmed(p: Seq<Seq<char>>) -> bool {
    forall|i: int| 0 <= i < p.len() ==> #[trigger] p[i].len() > 0 && trim(p[i]) == p[i]
}

impl DomNode {
    pub fn new_element(tag: &str) -> (r: Self)
        ensures
            r.tag@ == tag@,
            r.attributes@.len() == 0,
            r.text@.len() == 0,
            r.children@.len() == 0,
            r.node_type == NodeType::Element,
    {
        DomNode {
            tag: to_owned(tag),
            attributes: Vec::new(),
            text: String::new(),
            children: Vec::new(),
            node_type: NodeType::Element,
        }
    }

    pub fn new_text(text: &str) -> (r: Self)
        ensures
            r.tag@.len() == 0,
            r.attributes@.len() == 0,
            r.text@ == text@,
            r.children@.len() == 0,
            r.node_type == NodeType::Text,
    {
        DomNode {
            tag: String::new(),
            attributes: Vec::new(),
            text: to_owned(text),
            children: Vec::new(),
            node_type: NodeType::Text,
        }
    }

    pub fn new_document() -> (r: Self)
        ensures
            r.tag@.len() == 0,
            r.attributes@.len() == 0,
            r.text@.len() == 0,
            r.children@.len() == 0,
            r.node_type == NodeType::Document,
    {
        DomNode {
            tag: String::new(),
            attributes: Vec::new(),
            text: String::new(),
            children: Vec::new(),
            node_type: NodeType::Document,
        }
    }

    /// Index of the first attribute called `name`.
    fn attr_index(&self, name: &str) -> (r: Option<usize>)
        ensures
            r matches Some(i) ==> i < self.attributes@.len() && self.attributes@[i as int].0@
                == name@ && attr_lookup(view_attrs(self.attributes@), name@) == Some(
                self.attributes@[i as int].1@,
            ) && forall|j: int| 0 <= j < i ==> self.attributes@[j].0@ != name@,
            r is None ==> attr_lookup(view_attrs(self.attributes@), name@) is None,
    {
        attr_position(&self.attributes, name)
    }

    /// The value of the attribute `name`, if present.
    pub fn get_attr(&self, name: &str) -> (r: Option<&str>)
        ensures
            r matches Some(v) ==> attr_lookup(view_attrs(self.attributes@), name@) == Some(v@),
            r is None ==> attr_lookup(view_attrs(self.attributes@), name@) is None,
    {
        match self.attr_index(name) {
            Some(i) => Some(self.attributes[i].1.as_str()),
            None => None,
        }
    }

    /// `HashMap::contains_key` on the attributes.
    pub fn has_attr(&self, name: &str) -> (b: bool)
        ensures
            b == (attr_lookup(view_attrs(self.attributes@), name@) is Some),
    {
        self.attr_index(name).is_some()
    }

    /// Sets an attribute, replacing the value of an existing one.
    pub fn set_attr(&mut self, name: &str, value: &str)
        ensures
            view_attrs(final(self).attributes@) == attrs_insert(
                view_attrs(old(self).attributes@),
                name@,
                value@,
            ),
            attrs_unique(view_attrs(old(self).attributes@)) ==> attrs_unique(
                view_attrs(final(self).attributes@),
            ),
            final(self).tag == old(self).tag,
            final(self).text == old(self).text,
            final(self).children == old(self).children,
            final(self).node_type == old(self).node_type,
    {
        attrs_set(&mut self.attributes, name, value);
        proof {
            if attrs_unique(view_attrs(old(self).attributes@)) {
                law_insert_keeps_unique(view_attrs(old(self).attributes@), name@, value@);
            }
        }
    }

    /// Removes every attribute called `name`.
    pub fn remove_attr(&mut self, name: &str)
        ensures
            view_attrs(final(self).attributes@) == attrs_remove(
                view_attrs(old(self).attributes@),
                name@,
            ),
            attrs_unique(view_attrs(old(self).attributes@)) ==> attrs_unique(
                view_attrs(final(self).attributes@),
            ),
            final(self).tag == old(self).tag,
            final(self).text == old(self).text,
            final(self).children == old(self).children,
            final(self).node_type == old(self).node_type,
    {
        self.attributes = without_attr(&self.attributes, name);
        proof {
            if attrs_unique(view_attrs(old(self).attributes@)) {
                law_remove_keeps_unique(view_attrs(old(self).attributes@), name@);
            }
        }
    }

    /// A copy of the node with equal view.
    pub fn duplicate(&self) -> (r: DomNode)
        ensures
            r.dv() == self.dv(),
        decreases self,
    {
        let mut attrs: Vec<(String, String)> = Vec::new();
        let mut i: usize = 0;
        while i < self.attributes.len()
            invariant
                i <= self.attributes@.len(),
                view_attrs(attrs@) == view_attrs(self.attributes@).take(i as int),
            decreases self.attributes.len() - i,
        {
            let k = copy_string(&self.attributes[i].0);
            let v = copy_string(&self.attributes[i].1);
            let ghost prev = attrs@;
            attrs.push((k, v));
            proof {
                assert(view_attrs(attrs@) =~= view_attrs(prev).push((k@, v@)));
                assert(view_attrs(self.attributes@).take(i + 1) =~= view_attrs(
                    self.attributes@,
                ).take(i as int).push((k@, v@)));
            }
            i = i + 1;
        }
        let mut kids: Vec<DomNode> = Vec::new();
        let mut j: usize = 0;
        while j < self.children.len()
            invariant
                j <= self.children@.len(),
                kids@.len() == j,
                forall|m: int| 0 <= m < j ==> kids@[m].dv() == self.children@[m].dv(),
            decreases self.children.len() - j,
        {
            let c = self.children[j].duplicate();
            kids.push(c);
            j = j + 1;
        }
        let r = DomNode {
            tag: copy_string(&self.tag),
            attributes: attrs,
            text: copy_string(&self.text),
            children: kids,
            node_type: self.node_type,
        };
        proof {
            assert(view_attrs(r.attributes@) =~= view_attrs(self.attributes@));
            assert(r.dv().children =~= self.dv().children);
            assert(r.dv().attrs =~= self.dv().attrs);
        }
        r
    }
}

/// What `collect_text` appends to `out`: each piece, preceded by one space
/// when the text so far is non-empty and does not already end with a space.
pub open spec fn append_pieces(out: Seq<char>, ps: Seq<Seq<char>>) -> Seq<char>
    decreases ps.len(),
{
    if ps.len() == 0 {
        out
    } else {
        let o = append_pieces(out, ps.drop_last());
        if o.len() > 0 && o.last() != ' ' {
            o + seq![' '] + ps.last()
        } else {
            o + ps.last()
        }
    }
}

pub proof fn lemma_append_pieces_concat(out: Seq<char>, a: Seq<Seq<char>>, b: Seq<Seq<char>>)
    ensures
        append_pieces(out, a + b) == append_pieces(append_pieces(out, a), b),
    decreases b.len(),
{
    if b.len() == 0 {
        assert(a + b =~= a);
    } else {
        assert((a + b).drop_last() =~= a + b.drop_last());
        lemma_append_pieces_concat(out, a, b.drop_last());
    }
}

pub proof fn lemma_append_pieces_join(ps: Seq<Seq<char>>)
    requires
        pieces_trimmed(ps),
    ensures
        append_pieces(Seq::empty(), ps) == join(ps, seq![' ']),
        ps.len() > 0 ==> join(ps, seq![' ']).len() > 0,
        no_lead_ws(join(ps, seq![' '])),
        no_trail_ws(join(ps, seq![' '])),
    decreases ps.len(),
{
    if ps.len() == 0 {
    } else if ps.len() == 1 {
        assert(ps.drop_last().len() == 0);
        assert(append_pieces(Seq::empty(), ps.drop_last()) == Seq::<char>::empty());
        assert(Seq::<char>::empty() + ps[0] =~= ps[0]);
        assert(ps.last() == ps[0]);
        lemma_trim_props(ps[0]);
    } else {
        let d = ps.drop_last();
        assert forall|i: int| 0 <= i < d.len() implies #[trigger] d[i].len() > 0 && trim(d[i])
            == d[i] by {
            assert(d[i] == ps[i]);
            assert(ps[i].len() > 0);
        }
        lemma_append_pieces_join(d);
        assert(is_ws(' '));
        let o = join(d, seq![' ']);
        assert(trim(ps.last()) == ps.last());
        lemma_trim_props(ps.last());
        assert(ps[ps.len() - 1].len() > 0);
        assert(!is_ws(o.last()));
        let r = o + seq![' '] + ps.last();
        assert(o.len() > 0 && o.last() != ' ');
        assert(append_pieces(Seq::empty(), ps) == r);
        assert(join(ps, seq![' ']) == r);
        assert(r[0] == o[0]);
        assert(r.last() == ps.last().last());
    }
}

pub proof fn lemma_pieces_trimmed(v: DomView)
    ensures
        pieces_trimmed(text_pieces(v)),
    decreases v, 0int,
{
    if v.node_type == NodeType::Text {
        lemma_trim_idem(v.text);
    } else {
        lemma_pieces_upto_trimmed(v.children, v.children.len() as int);
    }
}

pub proof fn lemma_pieces_upto_trimmed(cs: Seq<DomView>, k: int)
    ensures
        pieces_trimmed(text_pieces_upto(cs, k)),
    decreases cs, k,
{
    if k <= 0 || k > cs.len() {
    } else {
        lemma_pieces_upto_trimmed(cs, k - 1);
        lemma_pieces_trimmed(cs[k - 1]);
        let a = text_pieces_upto(cs, k - 1);
        let b = text_pieces(cs[k - 1]);
        assert forall|i: int| 0 <= i < (a + b).len() implies #[trigger] (a + b)[i].len() > 0
            && trim((a + b)[i]) == (a + b)[i] by {
            if i < a.len() {
                assert((a + b)[i] == a[i]);
                assert(a[i].len() > 0);
            } else {
                assert((a + b)[i] == b[i - a.len()]);
                assert(b[i - a.len()].len() > 0);
            }
        }
    }
}

/// Whether the string is non-empty and ends with `c`.
fn ends_with_char(s: &str, c: char) -> (b: bool)
    ensures
        b == (s@.len() > 0 && s@.last() == c),
{
    let v = chars_of(s);
    v.len() > 0 && v[v.len() - 1] == c
}

impl DomNode {
    fn collect_text(&self, out: &mut String)
        ensures
            final(out)@ == append_pieces(old(out)@, text_pieces(self.dv())),
        decreases self,
    {
        match self.node_type {
            NodeType::Text => {
                let trimmed = trim_str(self.text.as_str());
                let ghost o = out@;
                proof {
                    let ps = text_pieces(self.dv());
                    assert(self.dv().text == self.text@);
                    assert(self.dv().node_type == NodeType::Text);
                    if trimmed@.len() > 0 {
                        assert(ps == seq![trimmed@]);
                        assert(ps.drop_last() =~= Seq::<Seq<char>>::empty());
                        assert(append_pieces(o, ps.drop_last()) == o);
                        assert(ps.last() == trimmed@);
                    } else {
                        assert(ps == Seq::<Seq<char>>::empty());
                    }
                }
                if !trimmed.as_str().is_empty() {
                    if !out.as_str().is_empty() && !ends_with_char(out.as_str(), ' ') {
                        push_char(out, ' ');
                        proof {
                            assert(o.push(' ') =~= o + seq![' ']);
                        }
                    }
                    push_str(out, trimmed.as_str());
                }
            },
            _ => {
                if self.node_type == NodeType::Element && str_eq(self.tag.as_str(), "style") {
                    proof {
                        assert(text_pieces(self.dv()) =~= Seq::<Seq<char>>::empty());
                    }
                    return;
                }
                let ghost out0 = out@;
                let ghost cvs = self.dv().children;
                proof {
                    lemma_dv_children(self);
                }
                let mut i: usize = 0;
                while i < self.children.len()
                    invariant
                        cvs == self.dv().children,
                        cvs == children_views(self.children@),
                        self.node_type != NodeType::Text,
                        !(self.node_type == NodeType::Element && self.tag@ == "style"@),
                        i <= self.children@.len(),
                        out@ == append_pieces(out0, text_pieces_upto(cvs, i as int)),
                    decreases self.children.len() - i,
                {
                    self.children[i].collect_text(out);
                    proof {
                        lemma_append_pieces_concat(
                            out0,
                            text_pieces_upto(cvs, i as int),
                            text_pieces(cvs[i as int]),
                        );
                    }
                    i = i + 1;
                }
            },
        }
    }

    /// The visible text of this node and its descendants.
    pub fn text_content(&self) -> (r: String)
        ensures
            r@ == text_content_spec(self.dv()),
    {
        let mut result = String::new();
        self.collect_text(&mut result);
        proof {
            lemma_pieces_trimmed(self.dv());
            lemma_append_pieces_join(text_pieces(self.dv()));
            crate::text::lemma_trim_id(result@);
        }
        trim_str(result.as_str())
    }
}

/// The non-empty trimmed texts of the text nodes among `cs`, in order.
pub open spec fn direct_pieces(cs: Seq<DomView>) -> Seq<Seq<char>>
    decreases cs.len(),
{
    if cs.len() == 0 {
        Seq::empty()
    } else {
        let c = cs.last();
        direct_pieces(cs.drop_last()) + if c.node_type == NodeType::Text && trim(c.text).len() > 0 {
            seq![trim(c.text)]
        } else {
            Seq::<Seq<char>>::empty()
        }
    }
}

impl DomNode {
    /// The text of this node's own text children (not of deeper
    /// descendants): each trimmed, the empty ones left out, joined by
    /// single spaces.
    pub fn direct_text(&self) -> (r: String)
        ensures
            r@ == join(direct_pieces(self.dv().children), " "@),
    {
        let ghost cs = self.dv().children;
        let mut parts: Vec<String> = Vec::new();
        let mut i: usize = 0;
        while i < self.children.len()
            invariant
                i <= self.children@.len(),
                cs == self.dv().children,
                cs.len() == self.children@.len(),
                view_strings(parts@) == direct_pieces(cs.take(i as int)),
            decreases self.children.len() - i,
        {
            proof {
                assert(cs.take(i + 1).drop_last() =~= cs.take(i as int));
                assert(cs.take(i + 1).last() == self.children@[i as int].dv());
            }
            let c = &self.children[i];
            let ghost prev = parts@;
            match c.node_type {
                NodeType::Text => {
                    let t = trim_str(c.text.as_str());
                    if !t.as_str().is_empty() {
                        parts.push(t);
                        proof {
                            assert(view_strings(parts@) =~= view_strings(prev).push(t@));
                        }
                    }
                },
                _ => {},
            }
            proof {
                if !(c.node_type == NodeType::Text && trim(c.text@).len() > 0) {
                    assert(view_strings(parts@) =~= view_strings(prev));
                }
            }
            i = i + 1;
        }
        proof {
            assert(cs.take(i as int) =~= cs);
        }
        join_strings(&parts, " ")
    }
}


// ---------------------------------------------------------------------------
// Reading back what was written
// ---------------------------------------------------------------------------

proof fn lemma_first_index(a: Seq<(Seq<char>, Seq<char>)>, name: Seq<char>, k: int)
    requires
        0 <= k < a.len(),
        a[k].0 == name,
    ensures
        exists|i: int|
            0 <= i < a.len() && a[i].0 == name && forall|j: int| 0 <= j < i ==> a[j].0 != name,
    decreases k,
{
    if exists|j: int| 0 <= j < k && a[j].0 == name {
        let j = choose|j: int| 0 <= j < k && a[j].0 == name;
        lemma_first_index(a, name, j);
    } else {
        assert(forall|j: int| 0 <= j < k ==> a[j].0 != name);
    }
}

proof fn lemma_lookup_same(a: Seq<(Seq<char>, Seq<char>)>, b: Seq<(Seq<char>, Seq<char>)>, k: Seq<char>)
    requires
        a.len() == b.len(),
        forall|i: int| 0 <= i < a.len() ==> a[i].0 == b[i].0,
        forall|i: int| 0 <= i < a.len() && a[i].0 == k ==> a[i].1 == b[i].1,
    ensures
        attr_lookup(a, k) == attr_lookup(b, k),
    decreases a.len(),
{
    if a.len() > 0 {
        lemma_lookup_same(a.drop_last(), b.drop_last(), k);
    }
}

proof fn lemma_insert_found(a: Seq<(Seq<char>, Seq<char>)>, name: Seq<char>, value: Seq<char>) -> (i: int)
    requires
        exists|i: int| 0 <= i < a.len() && a[i].0 == name,
    ensures
        0 <= i < a.len(),
        a[i].0 == name,
        forall|j: int| 0 <= j < i ==> a[j].0 != name,
        attrs_insert(a, name, value) == a.update(i, (name, value)),
{
    let k = choose|i: int| 0 <= i < a.len() && a[i].0 == name;
    lemma_first_index(a, name, k);
    let i = choose|i: int|
        0 <= i < a.len() && a[i].0 == name && forall|j: int| 0 <= j < i ==> a[j].0 != name;
    i
}

/// After an attribute is set, reading it gives the value set.
pub proof fn law_get_after_set(a: Seq<(Seq<char>, Seq<char>)>, name: Seq<char>, value: Seq<char>)
    ensures
        attr_lookup(attrs_insert(a, name, value), name) == Some(value),
{
    if exists|i: int| 0 <= i < a.len() && a[i].0 == name {
        let i = lemma_insert_found(a, name, value);
        let b = a.update(i, (name, value));
        assert(b.take(i + 1).drop_last() =~= a.take(i));
        lemma_lookup_none(a.take(i), name);
        assert(b.take(i + 1).last() == (name, value));
        lemma_lookup_prefix(b, name, i + 1);
    } else {
        lemma_lookup_none(a, name);
        assert(a.push((name, value)).drop_last() =~= a);
    }
}

/// Setting one attribute leaves what every other name reads unchanged.
pub proof fn law_set_keeps_others(
    a: Seq<(Seq<char>, Seq<char>)>,
    name: Seq<char>,
    value: Seq<char>,
    other: Seq<char>,
)
    requires
        other != name,
    ensures
        attr_lookup(attrs_insert(a, name, value), other) == attr_lookup(a, other),
{
    if exists|i: int| 0 <= i < a.len() && a[i].0 == name {
        let i = lemma_insert_found(a, name, value);
        lemma_lookup_same(a, a.update(i, (name, value)), other);
    } else {
        assert(a.push((name, value)).drop_last() =~= a);
    }
}

/// After an attribute is removed, reading it gives nothing.
pub proof fn law_get_after_remove(a: Seq<(Seq<char>, Seq<char>)>, name: Seq<char>)
    ensures
        attr_lookup(attrs_remove(a, name), name) is None,
{
    let pred = key_other_than(name);
    let f = a.filter(pred);
    assert forall|i: int| 0 <= i < f.len() implies f[i].0 != name by {
        a.lemma_filter_pred(pred, i);
    }
    lemma_lookup_none(f, name);
}

/// Removing one attribute leaves what every other name reads unchanged.
pub proof fn law_remove_keeps_others(a: Seq<(Seq<char>, Seq<char>)>, name: Seq<char>, other: Seq<char>)
    requires
        other != name,
    ensures
        attr_lookup(attrs_remove(a, name), other) == attr_lookup(a, other),
    decreases a.len(),
{
    if a.len() > 0 {
        law_remove_keeps_others(a.drop_last(), name, other);
        reveal_with_fuel(Seq::<_>::filter, 1);
        let pred = key_other_than(name);
        if pred(a.last()) {
            assert(a.filter(pred) == a.drop_last().filter(pred).push(a.last()));
            assert(a.filter(pred).drop_last() =~= a.drop_last().filter(pred));
        } else {
            assert(a.filter(pred) == a.drop_last().filter(pred));
        }
    } else {
        reveal_with_fuel(Seq::<_>::filter, 1);
    }
}

} // verus!
