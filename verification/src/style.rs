//! The non-numeric side of styling: the keyword values of layout
//! properties, the text of `<style>` elements, an element's classes, and
//! which stylesheet rules apply to an element and in what order.
use vstd::prelude::*;

use crate::dom::{attr_of, lemma_dv_children, lookup_attr, view_attrs, DomNode, DomView, NodeType};
use crate::selector::{
    anc_views, candidate, law_index_complete, matches_element, matches_spec, opt_str_view,
    part_views, rule_kinds, CssRule, SelectorIndex,
};
use crate::text::spec_to_lowercase;
use crate::text::{push_char, push_str, split_whitespace, str_eq, view_strings, words};

verus! {

broadcast use vstd::string::group_string_axioms;

// ---------------------------------------------------------------------------
// Keyword-valued properties
// ---------------------------------------------------------------------------

#[derive(Debug, Clone, Copy, PartialEq, Eq, Structural)]
pub enum Display {
    Block,
    Inline,
    InlineBlock,
    Flex,
    InlineFlex,
    Grid,
    /// `display: none` (the element generates no box).
    Hidden,
}

#[derive(Debug, Clone, Copy, PartialEq, Eq, Structural)]
pub enum Visibility {
    Visible,
    Hidden,
}

#[derive(Debug, Clone, Copy, PartialEq, Eq, Structural)]
pub enum BoxSizing {
    ContentBox,
    BorderBox,
}

#[derive(Debug, Clone, Copy, PartialEq, Eq, Structural)]
pub enum Position {
    Static,
    Relative,
    Absolute,
    Fixed,
}

#[derive(Debug, Clone, Copy, PartialEq, Eq, Structural)]
pub enum FlexDirection {
    Row,
    RowReverse,
    Column,
    ColumnReverse,
}

#[derive(Debug, Clone, Copy, PartialEq, Eq, Structural)]
pub enum FlexWrap {
    NoWrap,
    Wrap,
    WrapReverse,
}

#[derive(Debug, Clone, Copy, PartialEq, Eq, Structural)]
pub enum AlignItems {
    FlexStart,
    FlexEnd,
    Center,
    Stretch,
    Baseline,
}

#[derive(Debug, Clone, Copy, PartialEq, Eq, Structural)]
pub enum AlignSelf {
    Auto,
    FlexStart,
    FlexEnd,
    Center,
    Stretch,
    Baseline,
}

#[derive(Debug, Clone, Copy, PartialEq, Eq, Structural)]
pub enum JustifyContent {
    FlexStart,
    FlexEnd,
    Center,
    SpaceBetween,
    SpaceAround,
    SpaceEvenly,
}

#[derive(Debug, Clone, Copy, PartialEq, Eq, Structural)]
pub enum Overflow {
    Visible,
    Hidden,
    Scroll,
    Auto,
}

/// `grid-column` / `grid-row`: start and end lines.
#[derive(Debug, Clone, Copy, PartialEq, Eq, Structural)]
pub struct GridPlacement {
    pub start: i16,
    pub end: i16,
}

pub open spec fn display_spec(v: Seq<char>) -> Display {
    if v == "none"@ {
        Display::Hidden
    } else if v == "inline"@ {
        Display::Inline
    } else if v == "inline-block"@ {
        Display::InlineBlock
    } else if v == "flex"@ {
        Display::Flex
    } else if v == "inline-flex"@ {
        Display::InlineFlex
    } else if v == "grid"@ {
        Display::Grid
    } else {
        Display::Block
    }
}

/// The `display` keyword; anything unknown is `block`.
pub fn parse_display(value: &str) -> (d: Display)
    ensures
        d == display_spec(value@),
{
    if str_eq(value, "none") {
        Display::Hidden
    } else if str_eq(value, "inline") {
        Display::Inline
    } else if str_eq(value, "inline-block") {
        Display::InlineBlock
    } else if str_eq(value, "flex") {
        Display::Flex
    } else if str_eq(value, "inline-flex") {
        Display::InlineFlex
    } else if str_eq(value, "grid") {
        Display::Grid
    } else {
        Display::Block
    }
}

pub open spec fn visibility_spec(v: Seq<char>) -> Visibility {
    if v == "hidden"@ {
        Visibility::Hidden
    } else {
        Visibility::Visible
    }
}

/// The `visibility` keyword; anything but `hidden` is visible.
pub fn parse_visibility(value: &str) -> (r: Visibility)
    ensures
        r == visibility_spec(value@),
{
    if str_eq(value, "hidden") {
        Visibility::Hidden
    } else {
        Visibility::Visible
    }
}

pub open spec fn position_spec(v: Seq<char>) -> Position {
    if v == "relative"@ {
        Position::Relative
    } else if v == "absolute"@ {
        Position::Absolute
    } else if v == "fixed"@ {
        Position::Fixed
    } else {
        Position::Static
    }
}

/// The `position` keyword; anything unknown is `static`.
pub fn parse_position(value: &str) -> (r: Position)
    ensures
        r == position_spec(value@),
{
    if str_eq(value, "relative") {
        Position::Relative
    } else if str_eq(value, "absolute") {
        Position::Absolute
    } else if str_eq(value, "fixed") {
        Position::Fixed
    } else {
        Position::Static
    }
}

pub open spec fn flex_direction_spec(v: Seq<char>) -> FlexDirection {
    if v == "row-reverse"@ {
        FlexDirection::RowReverse
    } else if v == "column"@ {
        FlexDirection::Column
    } else if v == "column-reverse"@ {
        FlexDirection::ColumnReverse
    } else {
        FlexDirection::Row
    }
}

/// The `flex-direction` keyword; anything unknown is `row`.
pub fn parse_flex_direction(value: &str) -> (r: FlexDirection)
    ensures
        r == flex_direction_spec(value@),
{
    if str_eq(value, "row-reverse") {
        FlexDirection::RowReverse
    } else if str_eq(value, "column") {
        FlexDirection::Column
    } else if str_eq(value, "column-reverse") {
        FlexDirection::ColumnReverse
    } else {
        FlexDirection::Row
    }
}

pub open spec fn flex_wrap_spec(v: Seq<char>) -> FlexWrap {
    if v == "wrap"@ {
        FlexWrap::Wrap
    } else if v == "wrap-reverse"@ {
        FlexWrap::WrapReverse
    } else {
        FlexWrap::NoWrap
    }
}

/// The `flex-wrap` keyword; anything unknown is `nowrap`.
pub fn parse_flex_wrap(value: &str) -> (r: FlexWrap)
    ensures
        r == flex_wrap_spec(value@),
{
    if str_eq(value, "wrap") {
        FlexWrap::Wrap
    } else if str_eq(value, "wrap-reverse") {
        FlexWrap::WrapReverse
    } else {
        FlexWrap::NoWrap
    }
}

pub open spec fn align_items_spec(v: Seq<char>) -> AlignItems {
    if v == "flex-start"@ || v == "start"@ {
        AlignItems::FlexStart
    } else if v == "flex-end"@ || v == "end"@ {
        AlignItems::FlexEnd
    } else if v == "center"@ {
        AlignItems::Center
    } else if v == "baseline"@ {
        AlignItems::Baseline
    } else {
        AlignItems::Stretch
    }
}

/// The `align-items` keyword; anything unknown is `stretch`.
pub fn parse_align_items(value: &str) -> (r: AlignItems)
    ensures
        r == align_items_spec(value@),
{
    if str_eq(value, "flex-start") || str_eq(value, "start") {
        AlignItems::FlexStart
    } else if str_eq(value, "flex-end") || str_eq(value, "end") {
        AlignItems::FlexEnd
    } else if str_eq(value, "center") {
        AlignItems::Center
    } else if str_eq(value, "baseline") {
        AlignItems::Baseline
    } else {
        AlignItems::Stretch
    }
}

/// `place-items`: its first word, read as `align-items`.
pub fn parse_place_items(value: &str) -> (r: AlignItems)
    ensures
        r == align_items_spec(
            if words(value@).len() > 0 {
                words(value@)[0]
            } else {
                Seq::empty()
            },
        ),
{
    let ws = split_whitespace(value);
    if ws.len() > 0 {
        proof {
            assert(view_strings(ws@)[0] == ws@[0]@);
            assert(words(value@)[0] == ws@[0]@);
        }
        parse_align_items(ws[0].as_str())
    } else {
        proof {
            reveal_strlit("");
            assert(""@ =~= Seq::<char>::empty());
            assert(words(value@).len() == 0);
        }
        parse_align_items("")
    }
}

pub open spec fn align_self_spec(v: Seq<char>) -> AlignSelf {
    if v == "flex-start"@ || v == "start"@ {
        AlignSelf::FlexStart
    } else if v == "flex-end"@ || v == "end"@ {
        AlignSelf::FlexEnd
    } else if v == "center"@ {
        AlignSelf::Center
    } else if v == "stretch"@ {
        AlignSelf::Stretch
    } else if v == "baseline"@ {
        AlignSelf::Baseline
    } else {
        AlignSelf::Auto
    }
}

/// The `align-self` keyword; anything unknown is `auto`.
pub fn parse_align_self(value: &str) -> (r: AlignSelf)
    ensures
        r == align_self_spec(value@),
{
    if str_eq(value, "flex-start") || str_eq(value, "start") {
        AlignSelf::FlexStart
    } else if str_eq(value, "flex-end") || str_eq(value, "end") {
        AlignSelf::FlexEnd
    } else if str_eq(value, "center") {
        AlignSelf::Center
    } else if str_eq(value, "stretch") {
        AlignSelf::Stretch
    } else if str_eq(value, "baseline") {
        AlignSelf::Baseline
    } else {
        AlignSelf::Auto
    }
}

pub open spec fn justify_content_spec(v: Seq<char>) -> JustifyContent {
    if v == "flex-end"@ || v == "end"@ {
        JustifyContent::FlexEnd
    } else if v == "center"@ {
        JustifyContent::Center
    } else if v == "space-between"@ {
        JustifyContent::SpaceBetween
    } else if v == "space-around"@ {
        JustifyContent::SpaceAround
    } else if v == "space-evenly"@ {
        JustifyContent::SpaceEvenly
    } else {
        JustifyContent::FlexStart
    }
}

/// The `justify-content` keyword; anything unknown is `flex-start`.
pub fn parse_justify_content(value: &str) -> (r: JustifyContent)
    ensures
        r == justify_content_spec(value@),
{
    if str_eq(value, "flex-end") || str_eq(value, "end") {
        JustifyContent::FlexEnd
    } else if str_eq(value, "center") {
        JustifyContent::Center
    } else if str_eq(value, "space-between") {
        JustifyContent::SpaceBetween
    } else if str_eq(value, "space-around") {
        JustifyContent::SpaceAround
    } else if str_eq(value, "space-evenly") {
        JustifyContent::SpaceEvenly
    } else {
        JustifyContent::FlexStart
    }
}

pub open spec fn overflow_spec(v: Seq<char>) -> Overflow {
    if v == "hidden"@ {
        Overflow::Hidden
    } else if v == "scroll"@ {
        Overflow::Scroll
    } else if v == "auto"@ {
        Overflow::Auto
    } else {
        Overflow::Visible
    }
}

/// The `overflow` keyword; anything unknown is `visible`.
pub fn parse_overflow(value: &str) -> (r: Overflow)
    ensures
        r == overflow_spec(value@),
{
    if str_eq(value, "hidden") {
        Overflow::Hidden
    } else if str_eq(value, "scroll") {
        Overflow::Scroll
    } else if str_eq(value, "auto") {
        Overflow::Auto
    } else {
        Overflow::Visible
    }
}

pub open spec fn box_sizing_spec(v: Seq<char>) -> BoxSizing {
    if v == "border-box"@ {
        BoxSizing::BorderBox
    } else {
        BoxSizing::ContentBox
    }
}

/// The `box-sizing` keyword; anything but `border-box` is `content-box`.
pub fn parse_box_sizing(value: &str) -> (r: BoxSizing)
    ensures
        r == box_sizing_spec(value@),
{
    if str_eq(value, "border-box") {
        BoxSizing::BorderBox
    } else {
        BoxSizing::ContentBox
    }
}

/// One word of `flex-flow` applied to a direction and a wrap mode.
pub open spec fn flex_flow_word(w: Seq<char>, d: FlexDirection, f: FlexWrap) -> (FlexDirection, FlexWrap) {
    if w == "row"@ {
        (FlexDirection::Row, f)
    } else if w == "row-reverse"@ {
        (FlexDirection::RowReverse, f)
    } else if w == "column"@ {
        (FlexDirection::Column, f)
    } else if w == "column-reverse"@ {
        (FlexDirection::ColumnReverse, f)
    } else if w == "wrap"@ {
        (d, FlexWrap::Wrap)
    } else if w == "nowrap"@ {
        (d, FlexWrap::NoWrap)
    } else if w == "wrap-reverse"@ {
        (d, FlexWrap::WrapReverse)
    } else {
        (d, f)
    }
}

/// The words of `flex-flow`, applied from the left.
pub open spec fn flex_flow_spec(ws: Seq<Seq<char>>, d: FlexDirection, f: FlexWrap) -> (
    FlexDirection,
    FlexWrap,
)
    decreases ws.len(),
{
    if ws.len() == 0 {
        (d, f)
    } else {
        let p = flex_flow_spec(ws.drop_last(), d, f);
        flex_flow_word(ws.last(), p.0, p.1)
    }
}

/// `flex-flow`: each known word sets the direction or the wrap mode, in order.
pub fn parse_flex_flow(value: &str, direction: FlexDirection, wrap: FlexWrap) -> (r: (
    FlexDirection,
    FlexWrap,
))
    ensures
        r == flex_flow_spec(words(value@), direction, wrap),
{
    let ws = split_whitespace(value);
    let ghost wv = view_strings(ws@);
    let mut d = direction;
    let mut f = wrap;
    let mut i: usize = 0;
    proof {
        assert(wv.take(0) =~= Seq::<Seq<char>>::empty());
    }
    while i < ws.len()
        invariant
            i <= ws@.len(),
            wv == view_strings(ws@),
            wv == words(value@),
            (d, f) == flex_flow_spec(wv.take(i as int), direction, wrap),
        decreases ws.len() - i,
    {
        let w = ws[i].as_str();
        proof {
            assert(wv.take(i + 1).drop_last() =~= wv.take(i as int));
            assert(wv.take(i + 1).last() == w@);
        }
        if str_eq(w, "row") {
            d = FlexDirection::Row;
        } else if str_eq(w, "row-reverse") {
            d = FlexDirection::RowReverse;
        } else if str_eq(w, "column") {
            d = FlexDirection::Column;
        } else if str_eq(w, "column-reverse") {
            d = FlexDirection::ColumnReverse;
        } else if str_eq(w, "wrap") {
            f = FlexWrap::Wrap;
        } else if str_eq(w, "nowrap") {
            f = FlexWrap::NoWrap;
        } else if str_eq(w, "wrap-reverse") {
            f = FlexWrap::WrapReverse;
        }
        i = i + 1;
    }
    proof {
        assert(wv.take(i as int) =~= wv);
    }
    (d, f)
}

// ---------------------------------------------------------------------------
// Style sheets inside the document
// ---------------------------------------------------------------------------

/// The text children of a `<style>` element, each followed by a newline.
pub open spec fn style_text_children(cs: Seq<DomView>, k: int) -> Seq<char>
    decreases k,
{
    if k <= 0 || k > cs.len() {
        Seq::empty()
    } else {
        style_text_children(cs, k - 1) + if cs[k - 1].node_type == NodeType::Text {
            cs[k - 1].text.push('\n')
        } else {
            Seq::empty()
        }
    }
}

/// The CSS of every `<style>` element of a tree, in document order.
pub open spec fn style_text(v: DomView) -> Seq<char>
    decreases v, 0int,
{
    (if v.tag == "style"@ {
        style_text_children(v.children, v.children.len() as int)
    } else {
        Seq::empty()
    }) + style_text_upto(v.children, v.children.len() as int)
}

pub open spec fn style_text_upto(cs: Seq<DomView>, k: int) -> Seq<char>
    decreases cs, k,
{
    if k <= 0 || k > cs.len() {
        Seq::empty()
    } else {
        style_text_upto(cs, k - 1) + style_text(cs[k - 1])
    }
}

fn append_style_text(node: &DomNode, css: &mut String)
    ensures
        final(css)@ == old(css)@ + style_text(node.dv()),
    decreases node,
{
    let ghost v = node.dv();
    let ghost base = css@;
    proof {
        lemma_dv_children(node);
    }
    let ghost cs = v.children;
    let is_style = str_eq(node.tag.as_str(), "style");
    if is_style {
        let mut i: usize = 0;
        proof {
            assert(css@ =~= base + style_text_children(cs, 0));
        }
        while i < node.children.len()
            invariant
                i <= node.children@.len(),
                v == node.dv(),
                cs == v.children,
                cs == crate::dom::children_views(node.children@),
                css@ == base + style_text_children(cs, i as int),
            decreases node.children.len() - i,
        {
            let child = &node.children[i];
            if child.node_type == NodeType::Text {
                push_str(css, child.text.as_str());
                push_char(css, '\n');
            }
            proof {
                assert(cs[i as int] == child.dv());
                assert(css@ =~= base + style_text_children(cs, i + 1));
            }
            i = i + 1;
        }
    } else {
        proof {
            assert(css@ =~= base + Seq::<char>::empty());
        }
    }
    let ghost mid = css@;
    let mut j: usize = 0;
    proof {
        assert(css@ =~= mid + style_text_upto(cs, 0));
    }
    while j < node.children.len()
        invariant
            j <= node.children@.len(),
            v == node.dv(),
            cs == v.children,
            cs == crate::dom::children_views(node.children@),
            css@ == mid + style_text_upto(cs, j as int),
        decreases node.children.len() - j,
    {
        append_style_text(&node.children[j], css);
        proof {
            assert(cs[j as int] == node.children@[j as int].dv());
            assert(css@ =~= mid + style_text_upto(cs, j + 1));
        }
        j = j + 1;
    }
    proof {
        assert(css@ =~= base + style_text(v));
    }
}

/// The CSS text of every `<style>` element, in document order, each text
/// child followed by a newline.
pub fn extract_style_tags(node: &DomNode) -> (r: String)
    ensures
        r@ == style_text(node.dv()),
{
    let mut css = String::new();
    append_style_text(node, &mut css);
    proof {
        assert(css@ =~= style_text(node.dv()));
    }
    css
}

/// The classes of an element: the words of its `class` attribute.
pub open spec fn classes_spec(v: DomView) -> Seq<Seq<char>> {
    match attr_of(v, "class"@) {
        Some(c) => words(c),
        None => Seq::empty(),
    }
}

pub fn get_classes(node: &DomNode) -> (r: Vec<String>)
    ensures
        view_strings(r@) == classes_spec(node.dv()),
{
    match lookup_attr(&node.attributes, "class") {
        Some(c) => split_whitespace(c),
        None => {
            let r: Vec<String> = Vec::new();
            proof {
                assert(view_strings(r@) =~= Seq::<Seq<char>>::empty());
            }
            r
        },
    }
}

// ---------------------------------------------------------------------------
// The cascade
// ---------------------------------------------------------------------------

/// Whether one of a rule's selectors matches the element.
pub open spec fn rule_matches(
    r: CssRule,
    tag: Seq<char>,
    classes: Seq<Seq<char>>,
    id: Option<Seq<char>>,
    attrs: Seq<(Seq<char>, Seq<char>)>,
    anc: Seq<(Seq<char>, Seq<Seq<char>>, Option<Seq<char>>)>,
) -> bool {
    exists|k: int|
        0 <= k < r.selectors@.len() && matches_spec(
            part_views(#[trigger] r.selectors@[k].parts@),
            tag,
            classes,
            id,
            attrs,
            anc,
        )
}

/// Rule `a` is applied before rule `b`: lower specificity first, then
/// document order.
pub open spec fn applied_before(rules: Seq<CssRule>, a: usize, b: usize) -> bool {
    rules[a as int].specificity < rules[b as int].specificity || (rules[a as int].specificity
        == rules[b as int].specificity && a < b)
}

/// Whether one of a rule's selectors matches the element.
fn rule_applies(
    rule: &CssRule,
    tag: &str,
    classes: &[String],
    id: Option<&str>,
    attrs: &Vec<(String, String)>,
    ancestors: &[(String, Vec<String>, Option<String>)],
) -> (b: bool)
    ensures
        b == rule_matches(
            *rule,
            tag@,
            view_strings(classes@),
            opt_str_view(id),
            view_attrs(attrs@),
            anc_views(ancestors@),
        ),
{
    let mut s: usize = 0;
    while s < rule.selectors.len()
        invariant
            s <= rule.selectors@.len(),
            forall|m: int|
                0 <= m < s ==> !matches_spec(
                    part_views(#[trigger] rule.selectors@[m].parts@),
                    tag@,
                    view_strings(classes@),
                    opt_str_view(id),
                    view_attrs(attrs@),
                    anc_views(ancestors@),
                ),
        decreases rule.selectors.len() - s,
    {
        if matches_element(&rule.selectors[s], tag, classes, id, attrs, ancestors) {
            return true;
        }
        s = s + 1;
    }
    false
}

/// Whether `s` lists rule indices in the order their declarations apply.
pub open spec fn cascade_sorted(rules: Seq<CssRule>, s: Seq<usize>) -> bool {
    forall|i: int, j: int|
        0 <= i < j < s.len() ==> applied_before(rules, #[trigger] s[i], #[trigger] s[j])
}

/// Inserts `c`, which is greater than every index already listed, after the
/// indices of rules whose specificity is not greater than its own.
fn insert_by_specificity(out: &mut Vec<usize>, c: usize, rules: &Vec<CssRule>)
    requires
        c < rules@.len(),
        cascade_sorted(rules@, old(out)@),
        forall|i: int| 0 <= i < old(out)@.len() ==> #[trigger] old(out)@[i] < c,
    ensures
        cascade_sorted(rules@, final(out)@),
        forall|x: usize| #[trigger] final(out)@.contains(x) <==> (old(out)@.contains(x) || x == c),
        forall|i: int|
            0 <= i < final(out)@.len() ==> #[trigger] final(out)@[i] <= c,
{
    let ghost old_out = out@;
    let mut p = out.len();
    while p > 0 && rules[out[p - 1]].specificity > rules[c].specificity
        invariant
            p <= out@.len(),
            out@ == old_out,
            c < rules@.len(),
            forall|i: int| 0 <= i < out@.len() ==> #[trigger] out@[i] < c,
            forall|j: int|
                p <= j < out@.len() ==> rules@[#[trigger] out@[j] as int].specificity
                    > rules@[c as int].specificity,
        decreases p,
    {
        p = p - 1;
    }
    out.insert(p, c);
    proof {
        old_out.insert_ensures(p as int, c);
        assert forall|i: int, j: int| 0 <= i < j < out@.len() implies applied_before(
            rules@,
            #[trigger] out@[i],
            #[trigger] out@[j],
        ) by {
            if j < p {
                assert(out@[i] == old_out[i] && out@[j] == old_out[j]);
            } else if j == p {
                assert(out@[i] == old_out[i]);
                if i < p - 1 {
                    assert(applied_before(rules@, old_out[i], old_out[p - 1]));
                }
            } else if i == p {
                assert(out@[j] == old_out[j - 1]);
            } else if i < p {
                assert(out@[i] == old_out[i] && out@[j] == old_out[j - 1]);
            } else {
                assert(out@[i] == old_out[i - 1] && out@[j] == old_out[j - 1]);
            }
        }
        assert forall|x: usize| #[trigger] out@.contains(x) <==> (old_out.contains(x) || x == c) by {
            if out@.contains(x) {
                let m = choose|m: int| 0 <= m < out@.len() && out@[m] == x;
                if m < p {
                    assert(old_out[m] == x);
                } else if m > p {
                    assert(old_out[m - 1] == x);
                }
            }
            if old_out.contains(x) {
                let m = choose|m: int| 0 <= m < old_out.len() && old_out[m] == x;
                if m < p {
                    assert(out@[m] == x);
                } else {
                    assert(out@[m + 1] == x);
                }
            }
            if x == c {
                assert(out@[p as int] == c);
            }
        }
        assert forall|i: int| 0 <= i < out@.len() implies #[trigger] out@[i] <= c by {
            if i < p {
                assert(out@[i] == old_out[i]);
            } else if i > p {
                assert(out@[i] == old_out[i - 1]);
            }
        }
    }
}

proof fn lemma_take_push_contains(s: Seq<usize>, k: int, x: usize)
    requires
        0 <= k < s.len(),
    ensures
        s.take(k + 1).contains(x) <==> (s.take(k).contains(x) || x == s[k]),
{
    let t1 = s.take(k + 1);
    let t0 = s.take(k);
    if t1.contains(x) && x != s[k] {
        let m = choose|m: int| 0 <= m < t1.len() && #[trigger] t1[m] == x;
        assert(t0[m] == x);
    }
    if t0.contains(x) {
        let m = choose|m: int| 0 <= m < t0.len() && #[trigger] t0[m] == x;
        assert(t1[m] == x);
    }
    if x == s[k] {
        assert(t1[k] == x);
    }
}

/// The indices of the rules that apply to an element, in the order in which
/// their declarations are applied: the index's candidates whose selector
/// matches, by increasing specificity, ties in document order.
pub fn matched_rules(
    rules: &Vec<CssRule>,
    index: &SelectorIndex,
    tag: &str,
    classes: &[String],
    id: Option<&str>,
    attrs: &Vec<(String, String)>,
    ancestors: &[(String, Vec<String>, Option<String>)],
) -> (r: Vec<usize>)
    requires
        index.wf(),
        index.kinds() == rule_kinds(rules@),
    ensures
        cascade_sorted(rules@, r@),
        forall|x: usize|
            #[trigger] r@.contains(x) <==> (x < rules@.len() && candidate(
                rule_kinds(rules@)[x as int],
                tag@,
                view_strings(classes@),
                opt_str_view(id),
            ) && rule_matches(
                rules@[x as int],
                tag@,
                view_strings(classes@),
                opt_str_view(id),
                view_attrs(attrs@),
                anc_views(ancestors@),
            )),
{
    let cands = index.candidates_for(tag, classes, id);
    let ghost cv = view_strings(classes@);
    let ghost idv = opt_str_view(id);
    let ghost av = view_attrs(attrs@);
    let ghost anv = anc_views(ancestors@);
    let ghost ks = rule_kinds(rules@);
    let mut out: Vec<usize> = Vec::new();
    let mut k: usize = 0;
    while k < cands.len()
        invariant
            k <= cands@.len(),
            ks == rule_kinds(rules@),
            ks.len() == rules@.len(),
            cv == view_strings(classes@),
            idv == opt_str_view(id),
            av == view_attrs(attrs@),
            anv == anc_views(ancestors@),
            forall|a: int, b: int| 0 <= a < b < cands@.len() ==> cands@[a] < cands@[b],
            forall|x: usize|
                #[trigger] cands@.contains(x) <==> (x < ks.len() && candidate(
                    ks[x as int],
                    tag@,
                    cv,
                    idv,
                )),
            cascade_sorted(rules@, out@),
            forall|i: int| 0 <= i < out@.len() ==> #[trigger] out@[i] < rules@.len(),
            k < cands@.len() ==> forall|i: int|
                0 <= i < out@.len() ==> #[trigger] out@[i] < cands@[k as int],
            forall|x: usize|
                #[trigger] out@.contains(x) <==> (cands@.take(k as int).contains(x) && rule_matches(
                    rules@[x as int],
                    tag@,
                    cv,
                    idv,
                    av,
                    anv,
                )),
        decreases cands.len() - k,
    {
        let c = cands[k];
        proof {
            assert(cands@.contains(c));
        }
        let any = rule_applies(&rules[c], tag, classes, id, attrs, ancestors);
        let ghost old_out = out@;
        if any {
            insert_by_specificity(&mut out, c, rules);
        }
        proof {
            assert forall|x: usize| #[trigger] out@.contains(x) <==> (cands@.take(k + 1).contains(x)
                && rule_matches(rules@[x as int], tag@, cv, idv, av, anv)) by {
                lemma_take_push_contains(cands@, k as int, x);
                if out@.contains(x) && x != c {
                    assert(old_out.contains(x));
                }
                if old_out.contains(x) {
                    assert(out@.contains(x));
                }
            }
            assert forall|i: int| 0 <= i < out@.len() implies #[trigger] out@[i] < rules@.len() by {
                if any {
                    assert(out@[i] <= c);
                }
            }
            if k + 1 < cands@.len() {
                assert(cands@[k as int] < cands@[k + 1]);
                assert forall|i: int| 0 <= i < out@.len() implies #[trigger] out@[i] < cands@[k + 1] by {
                    if any {
                        assert(out@[i] <= c);
                    }
                }
            }
        }
        k = k + 1;
    }
    proof {
        assert(cands@.take(k as int) =~= cands@);
    }
    out
}


/// For an element whose tag is already lower case, a rule with one
/// selector is among the element's matched rules exactly when its selector
/// matches: the index never hides a matching rule.
pub proof fn law_cascade_complete(
    rules: Seq<CssRule>,
    x: int,
    tag: Seq<char>,
    classes: Seq<Seq<char>>,
    id: Option<Seq<char>>,
    attrs: Seq<(Seq<char>, Seq<char>)>,
    anc: Seq<(Seq<char>, Seq<Seq<char>>, Option<Seq<char>>)>,
)
    requires
        0 <= x < rules.len(),
        rules[x].selectors@.len() == 1,
        spec_to_lowercase(tag) == tag,
    ensures
        (candidate(rule_kinds(rules)[x], tag, classes, id) && rule_matches(
            rules[x],
            tag,
            classes,
            id,
            attrs,
            anc,
        )) == rule_matches(rules[x], tag, classes, id, attrs, anc),
{
    if rule_matches(rules[x], tag, classes, id, attrs, anc) {
        let k = choose|k: int|
            0 <= k < rules[x].selectors@.len() && matches_spec(
                part_views(#[trigger] rules[x].selectors@[k].parts@),
                tag,
                classes,
                id,
                attrs,
                anc,
            );
        assert(k == 0);
        law_index_complete(rules, x, tag, classes, id, attrs, anc);
    }
}

} // verus!
