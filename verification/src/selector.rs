//! A small CSS selector engine: parsing selectors and stylesheets, matching
//! a selector against an element and its ancestors, and indexing rules by
//! their rightmost simple selector.
//! Supported: tag, `.class`, `#id`, attribute selectors, descendant and
//! child combinators, `*`, and pseudo-classes (kept, but ignored when matching).
use vstd::prelude::*;

use crate::dom::{attr_lookup, lookup_attr, view_attrs};
use crate::text::{
    lemma_until_char, until_char, until_char_exec,
    chars_of, contains, contains_str, copy_string, ends_with, ends_with_str, split_whitespace,
    starts_with, starts_with_str, str_eq, view_strings, words, lemma_trim_len, trim_str, is_whitespace, is_alphanumeric, is_ws, push_char, spec_is_alphanumeric,
    lemma_trim_idem, spec_to_lowercase, string_of_range, to_lowercase, trim, trim_range,
};

verus! {

broadcast use vstd::string::group_string_axioms;

/// A parsed CSS rule: one selector and its raw declarations.
#[derive(Debug)]
pub struct CssRule {
    pub selectors: Vec<Selector>,
    /// The raw `property: value; ...` text.
    pub declarations: String,
    pub specificity: u32,
}

/// One selector of a comma-separated list.
#[derive(Debug)]
pub struct Selector {
    pub parts: Vec<SelectorPart>,
    pub specificity: u32,
}

/// A component of a selector chain.
#[derive(Debug)]
pub enum SelectorPart {
    /// A tag name: `div`, `button`.
    Tag(String),
    /// `.foo`
    Class(String),
    /// `#bar`
    Id(String),
    /// `[type="submit"]`, `[href^="/"]` and the like.
    Attribute(String, AttrMatch),
    /// The descendant combinator (whitespace).
    Descendant,
    /// The child combinator (`>`).
    Child,
    /// `*`
    Universal,
    /// A pseudo-class or pseudo-element; ignored when matching.
    PseudoClass(String),
}

/// The operator of an attribute selector.
#[derive(Debug)]
pub enum AttrMatch {
    /// `[attr]`
    Exists,
    /// `[attr="value"]`
    Exact(String),
    /// `[attr~="value"]`: one of the whitespace-separated words.
    Word(String),
    /// `[attr^="value"]`
    Prefix(String),
    /// `[attr$="value"]`
    Suffix(String),
    /// `[attr*="value"]`
    Contains(String),
    /// `[attr|="value"]`: the value, or the value followed by `-`.
    HyphenPrefix(String),
}

pub enum MatchSpec {
    Exists,
    Exact(Seq<char>),
    Word(Seq<char>),
    Prefix(Seq<char>),
    Suffix(Seq<char>),
    Contains(Seq<char>),
    HyphenPrefix(Seq<char>),
}

pub enum PartSpec {
    Tag(Seq<char>),
    Class(Seq<char>),
    Id(Seq<char>),
    Attribute(Seq<char>, MatchSpec),
    Descendant,
    Child,
    Universal,
    PseudoClass(Seq<char>),
}

impl AttrMatch {
    pub open spec fn mv(&self) -> MatchSpec {
        match self {
            AttrMatch::Exists => MatchSpec::Exists,
            AttrMatch::Exact(v) => MatchSpec::Exact(v@),
            AttrMatch::Word(v) => MatchSpec::Word(v@),
            AttrMatch::Prefix(v) => MatchSpec::Prefix(v@),
            AttrMatch::Suffix(v) => MatchSpec::Suffix(v@),
            AttrMatch::Contains(v) => MatchSpec::Contains(v@),
            AttrMatch::HyphenPrefix(v) => MatchSpec::HyphenPrefix(v@),
        }
    }
}

impl SelectorPart {
    pub open spec fn pv(&self) -> PartSpec {
        match self {
            SelectorPart::Tag(t) => PartSpec::Tag(t@),
            SelectorPart::Class(c) => PartSpec::Class(c@),
            SelectorPart::Id(i) => PartSpec::Id(i@),
            SelectorPart::Attribute(n, m) => PartSpec::Attribute(n@, m.mv()),
            SelectorPart::Descendant => PartSpec::Descendant,
            SelectorPart::Child => PartSpec::Child,
            SelectorPart::Universal => PartSpec::Universal,
            SelectorPart::PseudoClass(p) => PartSpec::PseudoClass(p@),
        }
    }
}

pub open spec fn part_views(p: Seq<SelectorPart>) -> Seq<PartSpec> {
    p.map_values(|x: SelectorPart| x.pv())
}

// ---------------------------------------------------------------------------
// Scanning helpers
// ---------------------------------------------------------------------------

pub open spec fn ident_char(c: char) -> bool {
    spec_is_alphanumeric(c) || c == '-' || c == '_'
}

/// End of the identifier that starts at `i` (letters, digits, `-`, `_`).
pub open spec fn ident_end(s: Seq<char>, i: int) -> int
    decreases s.len() - i,
{
    if 0 <= i < s.len() && ident_char(s[i]) {
        ident_end(s, i + 1)
    } else {
        i
    }
}

/// End of the whitespace run that starts at `i`.
pub open spec fn ws_end(s: Seq<char>, i: int) -> int
    decreases s.len() - i,
{
    if 0 <= i < s.len() && is_ws(s[i]) {
        ws_end(s, i + 1)
    } else {
        i
    }
}

/// Reading an attribute value at `i`: a quoted value ends at the matching
/// quote (consumed), an unquoted one at `]` (not consumed). The value is trimmed.
pub open spec fn attr_value_spec(s: Seq<char>, i: int) -> (Seq<char>, int) {
    if 0 <= i < s.len() && (s[i] == '"' || s[i] == '\'') {
        let e = until_char(s, i + 1, s[i]);
        (trim(s.subrange(i + 1, e)), if e < s.len() {
            e + 1
        } else {
            e
        })
    } else {
        let e = until_char(s, i, ']');
        (trim(s.subrange(i, e)), e)
    }
}

pub proof fn lemma_ident_end(s: Seq<char>, i: int)
    requires
        0 <= i <= s.len(),
    ensures
        i <= ident_end(s, i) <= s.len(),
    decreases s.len() - i,
{
    if i < s.len() && ident_char(s[i]) {
        lemma_ident_end(s, i + 1);
    }
}

pub proof fn lemma_ws_end(s: Seq<char>, i: int)
    requires
        0 <= i <= s.len(),
    ensures
        i <= ws_end(s, i) <= s.len(),
    decreases s.len() - i,
{
    if i < s.len() && is_ws(s[i]) {
        lemma_ws_end(s, i + 1);
    }
}

pub proof fn lemma_attr_value(s: Seq<char>, i: int)
    requires
        0 <= i <= s.len(),
    ensures
        i <= attr_value_spec(s, i).1 <= s.len(),
        0 <= i < s.len() && (s[i] == '"' || s[i] == '\'') ==> attr_value_spec(s, i).1 > i,
{
    if 0 <= i < s.len() && (s[i] == '"' || s[i] == '\'') {
        lemma_until_char(s, i + 1, s[i]);
    } else {
        lemma_until_char(s, i, ']');
    }
}

/// `read_ident`: the end of the identifier at `i`.
fn read_ident(v: &Vec<char>, i: usize) -> (j: usize)
    requires
        i <= v.len(),
    ensures
        j == ident_end(v@, i as int),
        i <= j <= v.len(),
{
    let mut j = i;
    while j < v.len() && (is_alphanumeric(v[j]) || v[j] == '-' || v[j] == '_')
        invariant
            i <= j <= v.len(),
            ident_end(v@, i as int) == ident_end(v@, j as int),
        decreases v.len() - j,
    {
        j = j + 1;
    }
    j
}

/// `skip_whitespace`: the end of the whitespace run at `i`.
fn skip_whitespace(v: &Vec<char>, i: usize) -> (j: usize)
    requires
        i <= v.len(),
    ensures
        j == ws_end(v@, i as int),
        i <= j <= v.len(),
{
    let mut j = i;
    while j < v.len() && is_whitespace(v[j])
        invariant
            i <= j <= v.len(),
            ws_end(v@, i as int) == ws_end(v@, j as int),
        decreases v.len() - j,
    {
        j = j + 1;
    }
    j
}

/// `read_attr_value`: the trimmed value at `i` and the position after it.
fn read_attr_value(v: &Vec<char>, i: usize) -> (r: (String, usize))
    requires
        i <= v.len(),
    ensures
        (r.0@, r.1 as int) == attr_value_spec(v@, i as int),
        i <= r.1 <= v.len(),
{
    proof {
        lemma_attr_value(v@, i as int);
    }
    if i < v.len() && (v[i] == '"' || v[i] == '\'') {
        let q = v[i];
        let e = until_char_exec(v, i + 1, q);
        let (a, b) = trim_range(v, i + 1, e);
        let val = string_of_range(v, a, b);
        let next = if e < v.len() {
            e + 1
        } else {
            e
        };
        (val, next)
    } else {
        let e = until_char_exec(v, i, ']');
        let (a, b) = trim_range(v, i, e);
        (string_of_range(v, a, b), e)
    }
}

// ---------------------------------------------------------------------------
// Parsing one selector
// ---------------------------------------------------------------------------

pub open spec fn is_attr_op(c: char) -> bool {
    c == '~' || c == '^' || c == '$' || c == '*' || c == '|'
}

pub open spec fn op_match(op: char, val: Seq<char>) -> MatchSpec {
    if op == '~' {
        MatchSpec::Word(val)
    } else if op == '^' {
        MatchSpec::Prefix(val)
    } else if op == '$' {
        MatchSpec::Suffix(val)
    } else if op == '*' {
        MatchSpec::Contains(val)
    } else {
        MatchSpec::HyphenPrefix(val)
    }
}

/// Whether a scan step from `i` to `j` moves forward within the input.
pub open spec fn advances(i: int, j: int, len: int) -> bool {
    i < j <= len
}

/// Reading the inside of `[...]` from `i`: the attribute name (untrimmed),
/// the operator and value, and the position after `]`.
pub open spec fn attr_scan(s: Seq<char>, i: int, name: Seq<char>, m: MatchSpec) -> (
    Seq<char>,
    MatchSpec,
    int,
)
    decreases s.len() - i,
{
    if i < 0 || i >= s.len() {
        (name, m, i)
    } else {
        let c = s[i];
        if c == ']' {
            (name, m, i + 1)
        } else if is_attr_op(c) {
            if i + 1 < s.len() && s[i + 1] == '=' {
                let (val, j) = attr_value_spec(s, i + 2);
                if advances(i, j, s.len() as int) {
                    attr_scan(s, j, name, op_match(c, val))
                } else {
                    (name, m, i)
                }
            } else {
                attr_scan(s, i + 1, name, m)
            }
        } else if c == '=' {
            let (val, j) = attr_value_spec(s, i + 1);
            if advances(i, j, s.len() as int) {
                attr_scan(s, j, name, MatchSpec::Exact(val))
            } else {
                (name, m, i)
            }
        } else {
            attr_scan(s, i + 1, name.push(c), m)
        }
    }
}

/// Skipping a parenthesised argument: from `i`, with `d` parentheses open,
/// the position after the one that closes them all (or the end).
pub open spec fn paren_skip(s: Seq<char>, i: int, d: int) -> int
    decreases s.len() - i,
{
    if i < 0 || i >= s.len() {
        i
    } else if s[i] == '(' {
        paren_skip(s, i + 1, d + 1)
    } else if s[i] == ')' {
        if d - 1 == 0 {
            i + 1
        } else {
            paren_skip(s, i + 1, d - 1)
        }
    } else {
        paren_skip(s, i + 1, d)
    }
}

/// `flush_tag`: a pending tag name, trimmed and lower-cased, becomes a
/// `Tag` part worth 1; a blank one is kept pending.
pub open spec fn flush_spec(cur: Seq<char>, parts: Seq<PartSpec>, sp: int) -> (
    Seq<char>,
    Seq<PartSpec>,
    int,
) {
    let t = trim(cur);
    if t.len() > 0 {
        (Seq::empty(), parts.push(PartSpec::Tag(spec_to_lowercase(t))), sp + 1)
    } else {
        (cur, parts, sp)
    }
}

pub open spec fn combinator_follows(c: char) -> bool {
    c == '>' || c == '+' || c == '~' || c == '{' || c == ','
}

/// The selector scanner from position `i` with pending tag text `cur`, the
/// parts read so far and their specificity; returns all parts and the total.
pub open spec fn sel_scan(s: Seq<char>, i: int, cur: Seq<char>, parts: Seq<PartSpec>, sp: int) -> (
    Seq<PartSpec>,
    int,
)
    decreases s.len() - i,
{
    if i < 0 || i >= s.len() {
        let f = flush_spec(cur, parts, sp);
        (f.1, f.2)
    } else {
        let c = s[i];
        if c == '.' || c == '#' {
            let f = flush_spec(cur, parts, sp);
            let j = ident_end(s, i + 1);
            let name = s.subrange(i + 1, j);
            let p2 = if name.len() == 0 {
                f.1
            } else if c == '.' {
                f.1.push(PartSpec::Class(name))
            } else {
                f.1.push(PartSpec::Id(name))
            };
            let sp2 = if name.len() == 0 {
                f.2
            } else if c == '.' {
                f.2 + 10
            } else {
                f.2 + 100
            };
            if advances(i, j, s.len() as int) {
                sel_scan(s, j, f.0, p2, sp2)
            } else {
                (p2, sp2)
            }
        } else if c == '[' {
            let f = flush_spec(cur, parts, sp);
            let (name, m, j) = attr_scan(s, i + 1, Seq::empty(), MatchSpec::Exists);
            let p2 = f.1.push(PartSpec::Attribute(trim(name), m));
            if advances(i, j, s.len() as int) {
                sel_scan(s, j, f.0, p2, f.2 + 10)
            } else {
                (p2, f.2 + 10)
            }
        } else if c == ':' {
            let f = flush_spec(cur, parts, sp);
            let k = if i + 1 < s.len() && s[i + 1] == ':' {
                i + 2
            } else {
                i + 1
            };
            let e = ident_end(s, k);
            let j = if e < s.len() && s[e] == '(' {
                paren_skip(s, e + 1, 1)
            } else {
                e
            };
            let p2 = f.1.push(PartSpec::PseudoClass(s.subrange(k, e)));
            if advances(i, j, s.len() as int) {
                sel_scan(s, j, f.0, p2, f.2 + 10)
            } else {
                (p2, f.2 + 10)
            }
        } else if c == '>' {
            let f = flush_spec(cur, parts, sp);
            let j = ws_end(s, i + 1);
            if advances(i, j, s.len() as int) {
                sel_scan(s, j, f.0, f.1.push(PartSpec::Child), f.2)
            } else {
                (f.1.push(PartSpec::Child), f.2)
            }
        } else if c == ' ' || c == '\t' || c == '\n' || c == '\r' {
            let f = flush_spec(cur, parts, sp);
            let j = ws_end(s, i + 1);
            let p2 = if j < s.len() && !combinator_follows(s[j]) {
                f.1.push(PartSpec::Descendant)
            } else {
                f.1
            };
            if advances(i, j, s.len() as int) {
                sel_scan(s, j, f.0, p2, f.2)
            } else {
                (p2, f.2)
            }
        } else if c == '*' {
            let f = flush_spec(cur, parts, sp);
            sel_scan(s, i + 1, f.0, f.1.push(PartSpec::Universal), f.2)
        } else {
            sel_scan(s, i + 1, cur.push(c), parts, sp)
        }
    }
}

pub struct SelectorSpec {
    pub parts: Seq<PartSpec>,
    pub specificity: int,
}

impl Selector {
    pub open spec fn sv(&self) -> SelectorSpec {
        SelectorSpec { parts: part_views(self.parts@), specificity: self.specificity as int }
    }
}

/// The selector that a selector string denotes: specificity counts 100 per
/// id, 10 per class, attribute or pseudo-class, and 1 per tag.
pub open spec fn parse_selector_spec(input: Seq<char>) -> Option<SelectorSpec> {
    let s = trim(input);
    if s.len() == 0 {
        None
    } else {
        let (parts, sp) = sel_scan(s, 0, Seq::empty(), Seq::empty(), 0);
        if parts.len() == 0 {
            None
        } else {
            Some(SelectorSpec { parts, specificity: sp })
        }
    }
}

/// Longest selector text handled; beyond it the specificity could overflow `u32`.
pub const MAX_SELECTOR_LEN: usize = 40_000_000;


/// Reads the inside of `[...]` starting just after `[`.
fn scan_attr(v: &Vec<char>, i: usize) -> (r: (String, AttrMatch, usize))
    requires
        i <= v.len(),
    ensures
        (r.0@, r.1.mv(), r.2 as int) == attr_scan(v@, i as int, Seq::empty(), MatchSpec::Exists),
        i <= r.2 <= v.len(),
{
    let mut name = String::new();
    let mut m = AttrMatch::Exists;
    let mut j = i;
    loop
        invariant
            i <= j <= v.len(),
            attr_scan(v@, j as int, name@, m.mv()) == attr_scan(
                v@,
                i as int,
                Seq::empty(),
                MatchSpec::Exists,
            ),
        decreases v.len() - j,
    {
        if j >= v.len() {
            return (name, m, j);
        }
        let c = v[j];
        if c == ']' {
            return (name, m, j + 1);
        }
        if c == '~' || c == '^' || c == '$' || c == '*' || c == '|' {
            if j + 1 < v.len() && v[j + 1] == '=' {
                let (val, k) = read_attr_value(v, j + 2);
                m = if c == '~' {
                    AttrMatch::Word(val)
                } else if c == '^' {
                    AttrMatch::Prefix(val)
                } else if c == '$' {
                    AttrMatch::Suffix(val)
                } else if c == '*' {
                    AttrMatch::Contains(val)
                } else {
                    AttrMatch::HyphenPrefix(val)
                };
                j = k;
            } else {
                j = j + 1;
            }
        } else if c == '=' {
            let (val, k) = read_attr_value(v, j + 1);
            m = AttrMatch::Exact(val);
            j = k;
        } else {
            push_char(&mut name, c);
            j = j + 1;
        }
    }
}

/// Skips a parenthesised argument whose `(` has just been read.
fn skip_parens(v: &Vec<char>, i: usize) -> (j: usize)
    requires
        1 <= i <= v.len(),
    ensures
        j == paren_skip(v@, i as int, 1),
        i <= j <= v.len(),
{
    let mut j = i;
    let mut d: usize = 1;
    loop
        invariant
            1 <= i <= j <= v.len(),
            1 <= d <= j - i + 1,
            paren_skip(v@, j as int, d as int) == paren_skip(v@, i as int, 1),
        decreases v.len() - j,
    {
        if j >= v.len() {
            return j;
        }
        if v[j] == '(' {
            d = d + 1;
            j = j + 1;
        } else if v[j] == ')' {
            if d == 1 {
                return j + 1;
            }
            d = d - 1;
            j = j + 1;
        } else {
            j = j + 1;
        }
    }
}

proof fn lemma_part_views_push(p: Seq<SelectorPart>, x: SelectorPart)
    ensures
        part_views(p.push(x)) == part_views(p).push(x.pv()),
{
    assert(part_views(p.push(x)) =~= part_views(p).push(x.pv()));
}

/// A pending tag name becomes a `Tag` part.
/// Every character is ASCII.
pub open spec fn all_ascii(s: Seq<char>) -> bool {
    forall|i: int| 0 <= i < s.len() ==> (#[trigger] s[i] as u32) < 128
}

/// ASCII text without upper-case letters.
pub open spec fn ascii_lowercase_text(s: Seq<char>) -> bool {
    all_ascii(s) && forall|i: int| 0 <= i < s.len() ==> !('A' <= #[trigger] s[i] && s[i] <= 'Z')
}

/// Every tag part is ASCII text without upper-case letters.
pub open spec fn tags_ascii_lower(parts: Seq<PartSpec>) -> bool {
    forall|k: int| 0 <= k < parts.len() && (#[trigger] parts[k]) is Tag ==> ascii_lowercase_text(
        parts[k]->Tag_0,
    )
}

proof fn lemma_push_keeps_ascii_lower(parts: Seq<PartSpec>, p: PartSpec)
    requires
        tags_ascii_lower(parts),
        p is Tag ==> ascii_lowercase_text(p->Tag_0),
    ensures
        tags_ascii_lower(parts.push(p)),
{
    assert forall|k: int| 0 <= k < parts.push(p).len() && (#[trigger] parts.push(p)[k]) is Tag implies ascii_lowercase_text(
        parts.push(p)[k]->Tag_0,
    ) by {
        if k < parts.len() {
            assert(parts.push(p)[k] == parts[k]);
        }
    }
}

proof fn lemma_trim_ascii(s: Seq<char>)
    requires
        all_ascii(s),
    ensures
        all_ascii(trim(s)),
{
    crate::text::lemma_trim_start_props(s);
    let a = crate::text::trim_start(s);
    crate::text::lemma_trim_end_props(a);
    assert forall|i: int| 0 <= i < a.len() implies (#[trigger] a[i] as u32) < 128 by {
        assert(a[i] == s[s.len() - a.len() + i]);
    }
    let b = trim(s);
    assert forall|i: int| 0 <= i < b.len() implies (#[trigger] b[i] as u32) < 128 by {
        assert(b[i] == a[i]);
    }
}

fn flush_tag(cur: &mut String, parts: &mut Vec<SelectorPart>, sp: &mut u32)
    requires
        *old(sp) < u32::MAX,
    ensures
        (final(cur)@, part_views(final(parts)@), *final(sp) as int) == flush_spec(
            old(cur)@,
            part_views(old(parts)@),
            *old(sp) as int,
        ),
        all_ascii(old(cur)@) && tags_ascii_lower(part_views(old(parts)@)) ==> tags_ascii_lower(
            part_views(final(parts)@),
        ),
{
    let t = trim_str(cur.as_str());
    if !t.as_str().is_empty() {
        let lower = to_lowercase(t.as_str());
        proof {
            lemma_part_views_push(parts@, SelectorPart::Tag(lower));
            if all_ascii(cur@) {
                lemma_trim_ascii(cur@);
                assert(forall|i: int| 0 <= i < t@.len() ==> (#[trigger] t@[i] as u32) < 128);
                assert forall|i: int| 0 <= i < lower@.len() implies (#[trigger] lower@[i] as u32) < 128
                    && !('A' <= lower@[i] && lower@[i] <= 'Z') by {
                    assert(lower@[i] == crate::text::ascii_lower(t@[i]));
                    assert((t@[i] as u32) < 128);
                }
                if tags_ascii_lower(part_views(parts@)) {
                    lemma_push_keeps_ascii_lower(part_views(parts@), PartSpec::Tag(lower@));
                }
            }
        }
        parts.push(SelectorPart::Tag(lower));
        *sp = *sp + 1;
        *cur = String::new();
    }
}

/// The bound on specificity carried through the scan.
pub open spec fn sp_budget(sp: int, cur: Seq<char>, i: int) -> bool {
    sp + (if cur.len() > 0 {
        1int
    } else {
        0int
    }) <= 100 * i
}

proof fn lemma_flush_budget(cur: Seq<char>, parts: Seq<PartSpec>, sp: int, i: int)
    requires
        sp_budget(sp, cur, i),
    ensures
        ({
            let f = flush_spec(cur, parts, sp);
            sp_budget(f.2, f.0, i) && f.2 <= sp + 1 && f.0.len() <= cur.len() && f.2 >= sp
        }),
{
    lemma_trim_len(cur);
}

/// Scans a trimmed selector into its parts and specificity.
fn scan_selector(s: &Vec<char>) -> (r: (Vec<SelectorPart>, u32))
    requires
        s.len() <= MAX_SELECTOR_LEN,
    ensures
        (part_views(r.0@), r.1 as int) == sel_scan(s@, 0, Seq::empty(), Seq::empty(), 0),
        all_ascii(s@) ==> tags_ascii_lower(part_views(r.0@)),
{
    let mut parts: Vec<SelectorPart> = Vec::new();
    let mut sp: u32 = 0;
    let mut cur = String::new();
    let mut i: usize = 0;
    proof {
        assert(part_views(parts@) =~= Seq::<PartSpec>::empty());
    }
    while i < s.len()
        invariant
            i <= s.len() <= MAX_SELECTOR_LEN,
            cur@.len() <= i,
            sp_budget(sp as int, cur@, i as int),
            sel_scan(s@, i as int, cur@, part_views(parts@), sp as int) == sel_scan(
                s@,
                0,
                Seq::empty(),
                Seq::empty(),
                0,
            ),
            all_ascii(s@) ==> all_ascii(cur@),
            all_ascii(s@) ==> tags_ascii_lower(part_views(parts@)),
        decreases s.len() - i,
    {
        let c = s[i];
        let ghost old_cur = cur@;
        let ghost old_parts = part_views(parts@);
        let ghost old_sp = sp as int;
        if c == '.' || c == '#' {
            proof {
                lemma_flush_budget(cur@, part_views(parts@), sp as int, i as int);
            }
            flush_tag(&mut cur, &mut parts, &mut sp);
            let j = read_ident(s, i + 1);
            proof {
                lemma_ident_end(s@, i + 1);
            }
            if j > i + 1 {
                let name = string_of_range(s, i + 1, j);
                if c == '.' {
                    proof {
                        lemma_part_views_push(parts@, SelectorPart::Class(name));
                        if all_ascii(s@) {
                            lemma_push_keeps_ascii_lower(part_views(parts@), SelectorPart::Class(name).pv());
                        }
                    }
                    parts.push(SelectorPart::Class(name));
                    sp = sp + 10;
                } else {
                    proof {
                        lemma_part_views_push(parts@, SelectorPart::Id(name));
                        if all_ascii(s@) {
                            lemma_push_keeps_ascii_lower(part_views(parts@), SelectorPart::Id(name).pv());
                        }
                    }
                    parts.push(SelectorPart::Id(name));
                    sp = sp + 100;
                }
            }
            i = j;
        } else if c == '[' {
            proof {
                lemma_flush_budget(cur@, part_views(parts@), sp as int, i as int);
            }
            flush_tag(&mut cur, &mut parts, &mut sp);
            let (name, m, j) = scan_attr(s, i + 1);
            let tn = trim_str(name.as_str());
            proof {
                lemma_part_views_push(parts@, SelectorPart::Attribute(tn, m));
                if all_ascii(s@) {
                    lemma_push_keeps_ascii_lower(part_views(parts@), SelectorPart::Attribute(tn, m).pv());
                }
            }
            parts.push(SelectorPart::Attribute(tn, m));
            sp = sp + 10;
            i = j;
        } else if c == ':' {
            proof {
                lemma_flush_budget(cur@, part_views(parts@), sp as int, i as int);
            }
            flush_tag(&mut cur, &mut parts, &mut sp);
            let k = if i + 1 < s.len() && s[i + 1] == ':' {
                i + 2
            } else {
                i + 1
            };
            let e = read_ident(s, k);
            let j = if e < s.len() && s[e] == '(' {
                skip_parens(s, e + 1)
            } else {
                e
            };
            let pseudo = string_of_range(s, k, e);
            proof {
                lemma_part_views_push(parts@, SelectorPart::PseudoClass(pseudo));
                if all_ascii(s@) {
                    lemma_push_keeps_ascii_lower(part_views(parts@), SelectorPart::PseudoClass(pseudo).pv());
                }
            }
            parts.push(SelectorPart::PseudoClass(pseudo));
            sp = sp + 10;
            i = j;
        } else if c == '>' {
            proof {
                lemma_flush_budget(cur@, part_views(parts@), sp as int, i as int);
            }
            flush_tag(&mut cur, &mut parts, &mut sp);
            let j = skip_whitespace(s, i + 1);
            proof {
                lemma_part_views_push(parts@, SelectorPart::Child);
                if all_ascii(s@) {
                    lemma_push_keeps_ascii_lower(part_views(parts@), SelectorPart::Child.pv());
                }
            }
            parts.push(SelectorPart::Child);
            i = j;
        } else if c == ' ' || c == '\t' || c == '\n' || c == '\r' {
            proof {
                lemma_flush_budget(cur@, part_views(parts@), sp as int, i as int);
            }
            flush_tag(&mut cur, &mut parts, &mut sp);
            let j = skip_whitespace(s, i + 1);
            if j < s.len() && s[j] != '>' && s[j] != '+' && s[j] != '~' && s[j] != '{' && s[j]
                != ',' {
                proof {
                    lemma_part_views_push(parts@, SelectorPart::Descendant);
                    if all_ascii(s@) {
                        lemma_push_keeps_ascii_lower(part_views(parts@), SelectorPart::Descendant.pv());
                    }
                }
                parts.push(SelectorPart::Descendant);
            }
            i = j;
        } else if c == '*' {
            proof {
                lemma_flush_budget(cur@, part_views(parts@), sp as int, i as int);
            }
            flush_tag(&mut cur, &mut parts, &mut sp);
            proof {
                lemma_part_views_push(parts@, SelectorPart::Universal);
                if all_ascii(s@) {
                    lemma_push_keeps_ascii_lower(part_views(parts@), SelectorPart::Universal.pv());
                }
            }
            parts.push(SelectorPart::Universal);
            i = i + 1;
        } else {
            let ghost prev_cur = cur@;
            push_char(&mut cur, c);
            proof {
                if all_ascii(s@) {
                    assert forall|k: int| 0 <= k < cur@.len() implies (#[trigger] cur@[k] as u32) < 128 by {
                        if k < prev_cur.len() {
                            assert(cur@[k] == prev_cur[k]);
                        } else {
                            assert(cur@[k] == s@[i as int]);
                        }
                    }
                }
            }
            i = i + 1;
        }
    }
    proof {
        lemma_flush_budget(cur@, part_views(parts@), sp as int, i as int);
    }
    flush_tag(&mut cur, &mut parts, &mut sp);
    (parts, sp)
}

pub open spec fn selector_opt_view(r: Option<Selector>) -> Option<SelectorSpec> {
    match r {
        Some(sel) => Some(sel.sv()),
        None => None,
    }
}

/// Parses one selector (no commas). `None` for blank input or input that
/// yields no parts.
pub fn parse_selector(input: &str) -> (r: Option<Selector>)
    requires
        trim(input@).len() <= MAX_SELECTOR_LEN,
    ensures
        selector_opt_view(r) == parse_selector_spec(input@),
        all_ascii(input@) ==> (r matches Some(sel) && tags_ascii_lower(sel.sv().parts) || r is None),
{
    proof {
        if all_ascii(input@) {
            lemma_trim_ascii(input@);
        }
    }
    let t = trim_str(input);
    let v = chars_of(t.as_str());
    if v.len() == 0 {
        return None;
    }
    let (parts, sp) = scan_selector(&v);
    if parts.len() == 0 {
        None
    } else {
        Some(Selector { parts, specificity: sp })
    }
}


// ---------------------------------------------------------------------------
// Matching
// ---------------------------------------------------------------------------

pub open spec fn is_comb(p: PartSpec) -> bool {
    p is Descendant || p is Child
}

/// Splitting parts into compound selectors: each run of simple parts, with
/// whether a child combinator follows it. Runs are never empty.
pub open spec fn seg_scan(p: Seq<PartSpec>, i: int, start: int, acc: Seq<(Seq<PartSpec>, bool)>) -> Seq<
    (Seq<PartSpec>, bool),
>
    decreases p.len() - i,
{
    if i >= p.len() {
        if start < p.len() {
            acc.push((p.subrange(start, p.len() as int), false))
        } else {
            acc
        }
    } else if is_comb(p[i]) {
        seg_scan(
            p,
            i + 1,
            i + 1,
            if start < i {
                acc.push((p.subrange(start, i), p[i] is Child))
            } else {
                acc
            },
        )
    } else {
        seg_scan(p, i + 1, start, acc)
    }
}

pub open spec fn segments(p: Seq<PartSpec>) -> Seq<(Seq<PartSpec>, bool)> {
    seg_scan(p, 0, 0, Seq::empty())
}

/// Whether an attribute value (if any) satisfies an attribute selector.
pub open spec fn attr_ok(m: MatchSpec, v: Option<Seq<char>>) -> bool {
    match m {
        MatchSpec::Exists => v is Some,
        MatchSpec::Exact(x) => v == Some(x),
        MatchSpec::Word(x) => v matches Some(s) && words(s).contains(x),
        MatchSpec::Prefix(x) => v matches Some(s) && starts_with(s, x),
        MatchSpec::Suffix(x) => v matches Some(s) && ends_with(s, x),
        MatchSpec::Contains(x) => v matches Some(s) && contains(s, x),
        MatchSpec::HyphenPrefix(x) => v matches Some(s) && (s == x || starts_with(s, x.push('-'))),
    }
}

/// Whether one simple part holds of an element whose lower-cased tag is `ltag`.
pub open spec fn part_ok(
    p: PartSpec,
    ltag: Seq<char>,
    classes: Seq<Seq<char>>,
    id: Option<Seq<char>>,
    attrs: Seq<(Seq<char>, Seq<char>)>,
) -> bool {
    match p {
        PartSpec::Tag(t) => t == ltag,
        PartSpec::Class(c) => classes.contains(c),
        PartSpec::Id(i) => id == Some(i),
        PartSpec::Attribute(n, m) => attr_ok(m, attr_lookup(attrs, n)),
        _ => true,
    }
}

pub open spec fn seg_ok(
    seg: Seq<PartSpec>,
    ltag: Seq<char>,
    classes: Seq<Seq<char>>,
    id: Option<Seq<char>>,
    attrs: Seq<(Seq<char>, Seq<char>)>,
) -> bool {
    forall|k: int| 0 <= k < seg.len() ==> part_ok(#[trigger] seg[k], ltag, classes, id, attrs)
}

/// An ancestor as `(tag, classes, id)`; ancestors carry no attributes.
pub open spec fn anc_ok(seg: Seq<PartSpec>, a: (Seq<char>, Seq<Seq<char>>, Option<Seq<char>>)) -> bool {
    seg_ok(seg, spec_to_lowercase(a.0), a.1, a.2, Seq::empty())
}

/// The nearest ancestor below position `a` (the element's own parent is the
/// last one) that a compound selector matches; with a child combinator only
/// the one just below `a` is tried.
pub open spec fn anc_search(
    seg: Seq<PartSpec>,
    child: bool,
    anc: Seq<(Seq<char>, Seq<Seq<char>>, Option<Seq<char>>)>,
    a: int,
) -> Option<int>
    decreases a,
{
    if a <= 0 {
        None
    } else if anc_ok(seg, anc[a - 1]) {
        Some(a - 1)
    } else if child {
        None
    } else {
        anc_search(seg, child, anc, a - 1)
    }
}

/// Matching compound selectors `k, k-1, ..., 0` against the ancestors below `a`.
pub open spec fn walk(
    segs: Seq<(Seq<PartSpec>, bool)>,
    k: int,
    anc: Seq<(Seq<char>, Seq<Seq<char>>, Option<Seq<char>>)>,
    a: int,
) -> bool
    decreases k + 1,
{
    if k < 0 {
        true
    } else {
        match anc_search(segs[k].0, segs[k].1, anc, a) {
            Some(j) => walk(segs, k - 1, anc, j),
            None => false,
        }
    }
}

/// Whether a selector matches an element, its ancestors listed from the root
/// down to its parent.
pub open spec fn matches_spec(
    parts: Seq<PartSpec>,
    tag: Seq<char>,
    classes: Seq<Seq<char>>,
    id: Option<Seq<char>>,
    attrs: Seq<(Seq<char>, Seq<char>)>,
    anc: Seq<(Seq<char>, Seq<Seq<char>>, Option<Seq<char>>)>,
) -> bool {
    let segs = segments(parts);
    segs.len() > 0 && seg_ok(segs.last().0, spec_to_lowercase(tag), classes, id, attrs) && walk(
        segs,
        segs.len() - 2,
        anc,
        anc.len() as int,
    )
}

pub open spec fn opt_str_view(o: Option<&str>) -> Option<Seq<char>> {
    match o {
        Some(s) => Some(s@),
        None => None,
    }
}

pub open spec fn opt_string_view(o: Option<String>) -> Option<Seq<char>> {
    match o {
        Some(s) => Some(s@),
        None => None,
    }
}

pub open spec fn anc_views(a: Seq<(String, Vec<String>, Option<String>)>) -> Seq<
    (Seq<char>, Seq<Seq<char>>, Option<Seq<char>>),
> {
    a.map_values(
        |x: (String, Vec<String>, Option<String>)|
            (x.0@, view_strings(x.1@), opt_string_view(x.2)),
    )
}

pub open spec fn ranges_ok(r: Seq<(usize, usize, bool)>, n: int) -> bool {
    forall|k: int| 0 <= k < r.len() ==> #[trigger] r[k].0 <= r[k].1 <= n
}

pub open spec fn ranges_view(p: Seq<PartSpec>, r: Seq<(usize, usize, bool)>) -> Seq<
    (Seq<PartSpec>, bool),
> {
    Seq::new(r.len(), |k: int| (p.subrange(r[k].0 as int, r[k].1 as int), r[k].2))
}

/// The compound selectors of a part list, as index ranges.
fn split_segments(parts: &Vec<SelectorPart>) -> (r: Vec<(usize, usize, bool)>)
    ensures
        ranges_ok(r@, parts@.len() as int),
        ranges_view(part_views(parts@), r@) == segments(part_views(parts@)),
{
    let ghost pv = part_views(parts@);
    let mut r: Vec<(usize, usize, bool)> = Vec::new();
    let mut start: usize = 0;
    let mut i: usize = 0;
    proof {
        assert(ranges_view(pv, r@) =~= Seq::<(Seq<PartSpec>, bool)>::empty());
    }
    while i < parts.len()
        invariant
            pv == part_views(parts@),
            start <= i <= parts.len(),
            ranges_ok(r@, parts@.len() as int),
            seg_scan(pv, i as int, start as int, ranges_view(pv, r@)) == segments(pv),
        decreases parts.len() - i,
    {
        let is_child = match &parts[i] {
            SelectorPart::Child => true,
            _ => false,
        };
        let comb = match &parts[i] {
            SelectorPart::Descendant => true,
            SelectorPart::Child => true,
            _ => false,
        };
        if comb {
            if start < i {
                proof {
                    assert(ranges_view(pv, r@.push((start, i, is_child))) =~= ranges_view(
                        pv,
                        r@,
                    ).push((pv.subrange(start as int, i as int), pv[i as int] is Child)));
                }
                r.push((start, i, is_child));
            }
            start = i + 1;
        }
        i = i + 1;
    }
    if start < parts.len() {
        proof {
            assert(ranges_view(pv, r@.push((start, parts.len(), false))) =~= ranges_view(
                pv,
                r@,
            ).push((pv.subrange(start as int, pv.len() as int), false)));
        }
        r.push((start, parts.len(), false));
    }
    r
}

/// Whether one simple part holds of an element.
fn part_matches(
    p: &SelectorPart,
    ltag: &str,
    classes: &[String],
    id: Option<&str>,
    attrs: &Vec<(String, String)>,
) -> (b: bool)
    ensures
        b == part_ok(p.pv(), ltag@, view_strings(classes@), opt_str_view(id), view_attrs(attrs@)),
{
    match p {
        SelectorPart::Tag(t) => str_eq(t.as_str(), ltag),
        SelectorPart::Class(c) => {
            let mut k: usize = 0;
            while k < classes.len()
                invariant
                    k <= classes@.len(),
                    p.pv() == PartSpec::Class(c@),
                    forall|j: int| 0 <= j < k ==> classes@[j]@ != c@,
                decreases classes.len() - k,
            {
                if str_eq(classes[k].as_str(), c.as_str()) {
                    proof {
                        assert(0 <= k < view_strings(classes@).len());
                        assert(view_strings(classes@)[k as int] == c@);
                        assert(view_strings(classes@).contains(c@));
                    }
                    return true;
                }
                k = k + 1;
            }
            proof {
                if view_strings(classes@).contains(c@) {
                    let j = choose|j: int|
                        0 <= j < view_strings(classes@).len() && view_strings(classes@)[j] == c@;
                    assert(classes@[j]@ == c@);
                }
            }
            false
        },
        SelectorPart::Id(i) => match id {
            Some(x) => str_eq(x, i.as_str()),
            None => false,
        },
        SelectorPart::Attribute(n, m) => {
            let v = lookup_attr(attrs, n.as_str());
            match m {
                AttrMatch::Exists => v.is_some(),
                AttrMatch::Exact(x) => match v {
                    Some(s) => str_eq(s, x.as_str()),
                    None => false,
                },
                AttrMatch::Word(x) => match v {
                    Some(s) => {
                        let ws = split_whitespace(s);
                        let mut k: usize = 0;
                        while k < ws.len()
                            invariant
                                k <= ws@.len(),
                                p.pv() == PartSpec::Attribute(n@, MatchSpec::Word(x@)),
                                attr_lookup(view_attrs(attrs@), n@) == Some(s@),
                                view_strings(ws@) == words(s@),
                                forall|j: int| 0 <= j < k ==> ws@[j]@ != x@,
                            decreases ws.len() - k,
                        {
                            if str_eq(ws[k].as_str(), x.as_str()) {
                                proof {
                                    assert(0 <= k < view_strings(ws@).len());
                                    assert(view_strings(ws@)[k as int] == x@);
                                    assert(words(s@)[k as int] == x@);
                                }
                                return true;
                            }
                            k = k + 1;
                        }
                        proof {
                            if words(s@).contains(x@) {
                                let j = choose|j: int|
                                    0 <= j < words(s@).len() && words(s@)[j] == x@;
                                assert(ws@[j]@ == x@);
                            }
                        }
                        false
                    },
                    None => false,
                },
                AttrMatch::Prefix(x) => match v {
                    Some(s) => starts_with_str(s, x.as_str()),
                    None => false,
                },
                AttrMatch::Suffix(x) => match v {
                    Some(s) => ends_with_str(s, x.as_str()),
                    None => false,
                },
                AttrMatch::Contains(x) => match v {
                    Some(s) => contains_str(s, x.as_str()),
                    None => false,
                },
                AttrMatch::HyphenPrefix(x) => match v {
                    Some(s) => {
                        let mut dashed = copy_string(x);
                        push_char(&mut dashed, '-');
                        str_eq(s, x.as_str()) || starts_with_str(s, dashed.as_str())
                    },
                    None => false,
                },
            }
        },
        _ => true,
    }
}

/// Whether the compound selector `parts[st..en]` matches an element.
fn seg_matches(
    parts: &Vec<SelectorPart>,
    st: usize,
    en: usize,
    ltag: &str,
    classes: &[String],
    id: Option<&str>,
    attrs: &Vec<(String, String)>,
) -> (b: bool)
    requires
        st <= en <= parts@.len(),
    ensures
        b == seg_ok(
            part_views(parts@).subrange(st as int, en as int),
            ltag@,
            view_strings(classes@),
            opt_str_view(id),
            view_attrs(attrs@),
        ),
{
    let ghost seg = part_views(parts@).subrange(st as int, en as int);
    let mut k = st;
    while k < en
        invariant
            st <= k <= en <= parts@.len(),
            seg == part_views(parts@).subrange(st as int, en as int),
            forall|j: int|
                0 <= j < k - st ==> part_ok(
                    #[trigger] seg[j],
                    ltag@,
                    view_strings(classes@),
                    opt_str_view(id),
                    view_attrs(attrs@),
                ),
        decreases en - k,
    {
        if !part_matches(&parts[k], ltag, classes, id, attrs) {
            proof {
                assert(seg[k - st] == parts@[k as int].pv());
            }
            return false;
        }
        proof {
            assert(seg[k - st] == parts@[k as int].pv());
        }
        k = k + 1;
    }
    true
}

/// The nearest ancestor below `a` that `parts[st..en]` matches.
fn find_ancestor(
    parts: &Vec<SelectorPart>,
    st: usize,
    en: usize,
    child: bool,
    ancestors: &[(String, Vec<String>, Option<String>)],
    a: usize,
) -> (r: Option<usize>)
    requires
        st <= en <= parts@.len(),
        a <= ancestors@.len(),
    ensures
        r matches Some(j) ==> j < a,
        match r {
            Some(j) => anc_search(
                part_views(parts@).subrange(st as int, en as int),
                child,
                anc_views(ancestors@),
                a as int,
            ) == Some(j as int),
            None => anc_search(
                part_views(parts@).subrange(st as int, en as int),
                child,
                anc_views(ancestors@),
                a as int,
            ) is None,
        },
{
    let ghost seg = part_views(parts@).subrange(st as int, en as int);
    let ghost av = anc_views(ancestors@);
    let empty: Vec<(String, String)> = Vec::new();
    let mut b = a;
    while b > 0
        invariant
            b <= a <= ancestors@.len(),
            st <= en <= parts@.len(),
            seg == part_views(parts@).subrange(st as int, en as int),
            av == anc_views(ancestors@),
            empty@.len() == 0,
            anc_search(seg, child, av, a as int) == anc_search(seg, child, av, b as int),
        decreases b,
    {
        let anc = &ancestors[b - 1];
        let ltag = to_lowercase(anc.0.as_str());
        let aid: Option<&str> = match &anc.2 {
            Some(x) => Some(x.as_str()),
            None => None,
        };
        let ok = seg_matches(parts, st, en, ltag.as_str(), anc.1.as_slice(), aid, &empty);
        proof {
            assert(view_attrs(empty@) =~= Seq::<(Seq<char>, Seq<char>)>::empty());
            assert(av[b - 1] == (anc.0@, view_strings(anc.1@), opt_string_view(anc.2)));
        }
        if ok {
            return Some(b - 1);
        }
        if child {
            return None;
        }
        b = b - 1;
    }
    None
}

/// Whether `selector` matches an element with the given tag, classes, id and
/// attributes, whose ancestors are listed as `(tag, classes, id)` from the
/// root down to its parent. The rightmost compound selector must match the
/// element; each one before it must match an ancestor above the last one
/// matched: the nearest such for a descendant combinator, the very next one
/// up for a child combinator. Ancestors carry no attributes, so attribute
/// selectors never match them.
pub fn matches_element(
    selector: &Selector,
    tag: &str,
    classes: &[String],
    id: Option<&str>,
    attrs: &Vec<(String, String)>,
    ancestors: &[(String, Vec<String>, Option<String>)],
) -> (b: bool)
    ensures
        b == matches_spec(
            part_views(selector.parts@),
            tag@,
            view_strings(classes@),
            opt_str_view(id),
            view_attrs(attrs@),
            anc_views(ancestors@),
        ),
{
    let parts = &selector.parts;
    let ghost pv = part_views(parts@);
    let segs = split_segments(parts);
    let ghost sv = segments(pv);
    if segs.len() == 0 {
        return false;
    }
    let n = segs.len();
    proof {
        assert(ranges_view(pv, segs@)[n - 1] == sv[n - 1]);
    }
    let ltag = to_lowercase(tag);
    let (lst, len_, _) = segs[n - 1];
    if !seg_matches(parts, lst, len_, ltag.as_str(), classes, id, attrs) {
        return false;
    }
    if n == 1 {
        return true;
    }
    let mut k: usize = n - 2;
    let mut a: usize = ancestors.len();
    loop
        invariant
            matches_spec(
                pv,
                tag@,
                view_strings(classes@),
                opt_str_view(id),
                view_attrs(attrs@),
                anc_views(ancestors@),
            ) == walk(sv, n - 2, anc_views(ancestors@), ancestors@.len() as int),
            parts@ == selector.parts@,
            segs@.len() == n,
            2 <= n,
            k <= n - 2,
            a <= ancestors@.len(),
            pv == part_views(parts@),
            sv == segments(pv),
            ranges_ok(segs@, parts@.len() as int),
            ranges_view(pv, segs@) == sv,
            walk(sv, k as int, anc_views(ancestors@), a as int) == walk(
                sv,
                n - 2,
                anc_views(ancestors@),
                ancestors@.len() as int,
            ),
        decreases k,
    {
        let (st, en, child) = segs[k];
        proof {
            assert(ranges_view(pv, segs@)[k as int] == sv[k as int]);
            assert(segs@[k as int].0 <= segs@[k as int].1 <= parts@.len());
        }
        let ghost seg = pv.subrange(st as int, en as int);
        proof {
            assert(sv[k as int] == (seg, child));
        }
        match find_ancestor(parts, st, en, child, ancestors, a) {
            None => {
                proof {
                    assert(anc_search(seg, child, anc_views(ancestors@), a as int) is None);
                    assert(!walk(sv, k as int, anc_views(ancestors@), a as int));
                }
                return false;
            },
            Some(j) => {
                if k == 0 {
                    proof {
                        assert(walk(sv, -1, anc_views(ancestors@), j as int));
                    }
                    return true;
                }
                a = j;
                k = k - 1;
            },
        }
    }
}


// ---------------------------------------------------------------------------
// Indexing rules by their rightmost simple selector
// ---------------------------------------------------------------------------

/// What decides whether a rule can apply to an element without running the
/// full match: the rightmost simple selector, when it is a tag, class or id.
#[derive(Debug)]
pub enum RightmostKind {
    Tag(String),
    Class(String),
    Id(String),
    Universal,
}

pub enum KindSpec {
    Tag(Seq<char>),
    Class(Seq<char>),
    Id(Seq<char>),
    Universal,
}

impl RightmostKind {
    pub open spec fn kv(&self) -> KindSpec {
        match self {
            RightmostKind::Tag(t) => KindSpec::Tag(t@),
            RightmostKind::Class(c) => KindSpec::Class(c@),
            RightmostKind::Id(i) => KindSpec::Id(i@),
            RightmostKind::Universal => KindSpec::Universal,
        }
    }
}

/// The last part that is not a combinator, classified.
pub open spec fn rightmost_spec(p: Seq<PartSpec>) -> KindSpec
    decreases p.len(),
{
    if p.len() == 0 {
        KindSpec::Universal
    } else if is_comb(p.last()) {
        rightmost_spec(p.drop_last())
    } else {
        match p.last() {
            PartSpec::Tag(t) => KindSpec::Tag(t),
            PartSpec::Class(c) => KindSpec::Class(c),
            PartSpec::Id(i) => KindSpec::Id(i),
            _ => KindSpec::Universal,
        }
    }
}

/// The kind of a rule: that of its first selector.
pub open spec fn rule_kind(r: CssRule) -> KindSpec {
    if r.selectors@.len() > 0 {
        rightmost_spec(part_views(r.selectors@[0].parts@))
    } else {
        KindSpec::Universal
    }
}

pub open spec fn rule_kinds(rules: Seq<CssRule>) -> Seq<KindSpec> {
    rules.map_values(|r: CssRule| rule_kind(r))
}

/// Whether a rule of kind `k` is a candidate for an element.
pub open spec fn candidate(k: KindSpec, tag: Seq<char>, classes: Seq<Seq<char>>, id: Option<Seq<char>>) -> bool {
    match k {
        KindSpec::Universal => true,
        KindSpec::Tag(t) => t == tag,
        KindSpec::Class(c) => classes.contains(c),
        KindSpec::Id(i) => id == Some(i),
    }
}

pub fn extract_rightmost_simple(selector: &Selector) -> (r: RightmostKind)
    ensures
        r.kv() == rightmost_spec(part_views(selector.parts@)),
{
    let ghost pv = part_views(selector.parts@);
    let mut i = selector.parts.len();
    proof {
        assert(pv.take(i as int) =~= pv);
    }
    while i > 0
        invariant
            i <= selector.parts@.len(),
            pv == part_views(selector.parts@),
            rightmost_spec(pv.take(i as int)) == rightmost_spec(pv),
        decreases i,
    {
        let ghost t = pv.take(i as int);
        proof {
            assert(t.last() == selector.parts@[i - 1].pv());
            assert(t.drop_last() =~= pv.take(i - 1));
        }
        match &selector.parts[i - 1] {
            SelectorPart::Descendant => {
                i = i - 1;
            },
            SelectorPart::Child => {
                i = i - 1;
            },
            SelectorPart::Tag(t) => {
                return RightmostKind::Tag(copy_string(t));
            },
            SelectorPart::Class(c) => {
                return RightmostKind::Class(copy_string(c));
            },
            SelectorPart::Id(x) => {
                return RightmostKind::Id(copy_string(x));
            },
            _ => {
                return RightmostKind::Universal;
            },
        }
    }
    proof {
        assert(pv.take(0) =~= Seq::<PartSpec>::empty());
    }
    RightmostKind::Universal
}

/// Lists of rule indices keyed by name; each name occurs once.
struct Buckets {
    keys: Vec<String>,
    lists: Vec<Vec<usize>>,
}

impl Buckets {
    spec fn wf(&self) -> bool {
        &&& self.keys@.len() == self.lists@.len()
        &&& forall|i: int, j: int|
            0 <= i < j < self.keys@.len() ==> #[trigger] self.keys@[i]@ != #[trigger] self.keys@[j]@
    }

    /// Whether index `x` is listed under `k`.
    spec fn has(&self, k: Seq<char>, x: usize) -> bool {
        exists|i: int|
            0 <= i < self.keys@.len() && #[trigger] self.keys@[i]@ == k && self.lists@[i]@.contains(x)
    }

    fn new() -> (b: Self)
        ensures
            b.wf(),
            forall|k: Seq<char>, x: usize| !b.has(k, x),
    {
        Buckets { keys: Vec::new(), lists: Vec::new() }
    }

    fn position(&self, k: &str) -> (r: Option<usize>)
        requires
            self.wf(),
        ensures
            r matches Some(i) ==> i < self.keys@.len() && self.keys@[i as int]@ == k@,
            r is None ==> forall|i: int| 0 <= i < self.keys@.len() ==> self.keys@[i]@ != k@,
    {
        let mut i: usize = 0;
        while i < self.keys.len()
            invariant
                i <= self.keys@.len(),
                forall|j: int| 0 <= j < i ==> self.keys@[j]@ != k@,
            decreases self.keys.len() - i,
        {
            if str_eq(self.keys[i].as_str(), k) {
                return Some(i);
            }
            i = i + 1;
        }
        None
    }

    /// Sets `mark[x]` for every `x` listed under `k`.
    fn mark_key(&self, k: &str, mark: &mut Vec<bool>)
        requires
            self.wf(),
            forall|x: usize| #[trigger] self.has(k@, x) ==> x < old(mark)@.len(),
        ensures
            final(mark)@.len() == old(mark)@.len(),
            forall|x: usize|
                x < final(mark)@.len() ==> #[trigger] final(mark)@[x as int] == (old(mark)@[x as int]
                    || self.has(k@, x)),
    {
        match self.position(k) {
            None => {
                proof {
                    assert forall|x: usize| !#[trigger] self.has(k@, x) by {
                        if self.has(k@, x) {
                            let i = choose|i: int|
                                0 <= i < self.keys@.len() && #[trigger] self.keys@[i]@ == k@
                                    && self.lists@[i]@.contains(x);
                        }
                    }
                }
            },
            Some(p) => {
                let list = &self.lists[p];
                let ghost m0 = mark@;
                proof {
                    assert forall|x: usize| #[trigger] self.has(k@, x) <==> list@.contains(x) by {
                        if self.has(k@, x) {
                            let i = choose|i: int|
                                0 <= i < self.keys@.len() && #[trigger] self.keys@[i]@ == k@
                                    && self.lists@[i]@.contains(x);
                            if i != p as int {
                                if i < p {
                                    assert(self.keys@[i]@ != self.keys@[p as int]@);
                                } else {
                                    assert(self.keys@[p as int]@ != self.keys@[i]@);
                                }
                            }
                        }
                        if list@.contains(x) {
                            assert(self.keys@[p as int]@ == k@);
                        }
                    }
                }
                let mut j: usize = 0;
                while j < list.len()
                    invariant
                        j <= list@.len(),
                        mark@.len() == m0.len(),
                        forall|x: usize| #[trigger] self.has(k@, x) <==> list@.contains(x),
                        forall|x: usize| #[trigger] self.has(k@, x) ==> x < m0.len(),
                        forall|x: usize|
                            x < mark@.len() ==> #[trigger] mark@[x as int] == (m0[x as int]
                                || list@.take(j as int).contains(x)),
                    decreases list.len() - j,
                {
                    let y = list[j];
                    proof {
                        assert(list@.contains(y));
                        assert(self.has(k@, y));
                    }
                    mark.set(y, true);
                    proof {
                        assert forall|x: usize| x < mark@.len() implies #[trigger] mark@[x as int] == (
                        m0[x as int] || list@.take(j + 1).contains(x)) by {
                            assert(list@.take(j + 1) =~= list@.take(j as int).push(y));
                            if list@.take(j as int).contains(x) {
                                let m = choose|m: int| 0 <= m < j && list@.take(j as int)[m] == x;
                                assert(list@.take(j + 1)[m] == x);
                            }
                            if x == y {
                                assert(list@.take(j + 1)[j as int] == x);
                            }
                        }
                    }
                    j = j + 1;
                }
                proof {
                    assert(list@.take(j as int) =~= list@);
                }
            },
        }
    }

    /// Lists `x` under `k`.
    fn add(&mut self, k: String, x: usize)
        requires
            old(self).wf(),
        ensures
            final(self).wf(),
            added(*old(self), *final(self), k@, x),
    {
        match self.position(k.as_str()) {
            Some(i) => {
                let ghost old_self = *self;
                self.lists[i].push(x);
                proof {
                    assert forall|k2: Seq<char>, y: usize|
                        self.has(k2, y) <==> (old_self.has(k2, y) || (k2 == k@ && y == x)) by {
                        if self.has(k2, y) {
                            let j = choose|j: int|
                                0 <= j < self.keys@.len() && #[trigger] self.keys@[j]@ == k2
                                    && self.lists@[j]@.contains(y);
                            if j != i as int {
                                assert(old_self.lists@[j] == self.lists@[j]);
                            } else if y != x {
                                let m = choose|m: int| 0 <= m < self.lists@[j]@.len() && self.lists@[j]@[m] == y;
                                assert(old_self.lists@[j]@[m] == y);
                            }
                        }
                        if old_self.has(k2, y) {
                            let j = choose|j: int|
                                0 <= j < old_self.keys@.len() && #[trigger] old_self.keys@[j]@ == k2
                                    && old_self.lists@[j]@.contains(y);
                            if j == i as int {
                                let m = choose|m: int| 0 <= m < old_self.lists@[j]@.len() && old_self.lists@[j]@[m] == y;
                                assert(self.lists@[j]@[m] == y);
                            } else {
                                assert(old_self.lists@[j] == self.lists@[j]);
                            }
                            assert(self.keys@[j]@ == k2);
                        }
                        if k2 == k@ && y == x {
                            assert(self.lists@[i as int]@.last() == x);
                            assert(self.lists@[i as int]@.contains(x));
                            assert(self.keys@[i as int]@ == k2);
                        }
                    }
                    assert(self.wf());
                    assert(added(old_self, *self, k@, x));
                }
            },
            None => {
                let ghost old_self = *self;
                let mut l: Vec<usize> = Vec::new();
                l.push(x);
                self.keys.push(k);
                self.lists.push(l);
                proof {
                    let n = old_self.keys@.len() as int;
                    assert(self.lists@[n]@[0] == x);
                    assert forall|k2: Seq<char>, y: usize|
                        self.has(k2, y) <==> (old_self.has(k2, y) || (k2 == k@ && y == x)) by {
                        if self.has(k2, y) {
                            let j = choose|j: int|
                                0 <= j < self.keys@.len() && #[trigger] self.keys@[j]@ == k2
                                    && self.lists@[j]@.contains(y);
                            if j < n {
                                assert(old_self.keys@[j] == self.keys@[j]);
                                assert(old_self.lists@[j] == self.lists@[j]);
                            }
                        }
                        if old_self.has(k2, y) {
                            let j = choose|j: int|
                                0 <= j < old_self.keys@.len() && #[trigger] old_self.keys@[j]@ == k2
                                    && old_self.lists@[j]@.contains(y);
                            assert(old_self.keys@[j] == self.keys@[j]);
                            assert(old_self.lists@[j] == self.lists@[j]);
                        }
                        if k2 == k@ && y == x {
                            assert(self.keys@[n]@ == k2);
                            assert(self.lists@[n]@.contains(x));
                        }
                    }
                    assert(self.wf());
                    assert(added(old_self, *self, k@, x));
                }
            },
        }
    }
}

/// `b2` lists what `b1` lists, and `x` under `k`.
spec fn added(b1: Buckets, b2: Buckets, k: Seq<char>, x: usize) -> bool {
    forall|k2: Seq<char>, y: usize|
        #![trigger b2.has(k2, y)]
        #![trigger b1.has(k2, y)]
        b2.has(k2, y) <==> (b1.has(k2, y) || (k2 == k && y == x))
}

/// Rule indices bucketed by the rightmost simple selector of each rule, so
/// that an element is only tested against rules that could match it.
pub struct SelectorIndex {
    by_tag: Buckets,
    by_class: Buckets,
    by_id: Buckets,
    universal: Vec<usize>,
    n: usize,
    kinds: Ghost<Seq<KindSpec>>,
}

impl SelectorIndex {
    /// The kinds of the indexed rules, one per rule.
    pub closed spec fn kinds(&self) -> Seq<KindSpec> {
        self.kinds@
    }

    pub closed spec fn wf(&self) -> bool {
        &&& self.by_tag.wf()
        &&& self.by_class.wf()
        &&& self.by_id.wf()
        &&& self.kinds@.len() == self.n
        &&& forall|x: usize| #[trigger]
            self.universal@.contains(x) <==> (x < self.n && self.kinds@[x as int] is Universal)
        &&& forall|k: Seq<char>, x: usize| #[trigger]
            self.by_tag.has(k, x) <==> (x < self.n && self.kinds@[x as int] == KindSpec::Tag(k))
        &&& forall|k: Seq<char>, x: usize| #[trigger]
            self.by_class.has(k, x) <==> (x < self.n && self.kinds@[x as int] == KindSpec::Class(k))
        &&& forall|k: Seq<char>, x: usize| #[trigger]
            self.by_id.has(k, x) <==> (x < self.n && self.kinds@[x as int] == KindSpec::Id(k))
    }

    /// Indexes `rules` by position.
    pub fn build(rules: &Vec<CssRule>) -> (idx: Self)
        ensures
            idx.wf(),
            idx.kinds() == rule_kinds(rules@),
    {
        let mut idx = SelectorIndex {
            by_tag: Buckets::new(),
            by_class: Buckets::new(),
            by_id: Buckets::new(),
            universal: Vec::new(),
            n: 0,
            kinds: Ghost(Seq::empty()),
        };
        let mut i: usize = 0;
        proof {
            assert(rule_kinds(rules@).take(0) =~= Seq::<KindSpec>::empty());
        }
        while i < rules.len()
            invariant
                i <= rules@.len(),
                idx.n == i,
                idx.wf(),
                idx.kinds@ == rule_kinds(rules@).take(i as int),
            decreases rules.len() - i,
        {
            let kind = if rules[i].selectors.len() > 0 {
                extract_rightmost_simple(&rules[i].selectors[0])
            } else {
                RightmostKind::Universal
            };
            let ghost kv = kind.kv();
            let ghost old_idx = idx;
            proof {
                assert(kv == rule_kind(rules@[i as int]));
                assert(rule_kinds(rules@).take(i + 1) =~= idx.kinds@.push(kv));
            }
            match kind {
                RightmostKind::Tag(t) => idx.by_tag.add(t, i),
                RightmostKind::Class(c) => idx.by_class.add(c, i),
                RightmostKind::Id(x) => idx.by_id.add(x, i),
                RightmostKind::Universal => idx.universal.push(i),
            }
            idx.n = i + 1;
            idx.kinds = Ghost(idx.kinds@.push(kv));
            proof {
                let ks = idx.kinds@;
                assert forall|x: usize| #[trigger]
                    idx.universal@.contains(x) <==> (x < idx.n && ks[x as int] is Universal) by {
                    if x < i {
                        assert(ks[x as int] == old_idx.kinds@[x as int]);
                    }
                    if x == i {
                        assert(ks[x as int] == kv);
                    }
                    if old_idx.universal@.contains(x) {
                        assert(x < i && old_idx.kinds@[x as int] is Universal);
                        assert(ks[x as int] == old_idx.kinds@[x as int]);
                    }
                    if !(kv is Universal) {
                        assert(idx.universal@ == old_idx.universal@);
                        if x == i {
                            assert(!old_idx.universal@.contains(x));
                        }
                    }
                    if kv is Universal {
                        assert(idx.universal@ == old_idx.universal@.push(i));
                        if idx.universal@.contains(x) && x != i {
                            let m = choose|m: int| 0 <= m < idx.universal@.len() && idx.universal@[m] == x;
                            assert(old_idx.universal@[m] == x);
                        }
                        if x < i && old_idx.universal@.contains(x) {
                            let m = choose|m: int| 0 <= m < old_idx.universal@.len() && old_idx.universal@[m] == x;
                            assert(idx.universal@[m] == x);
                        }
                        if x == i {
                            assert(idx.universal@.last() == x);
                        }
                    }
                }
                assert forall|k: Seq<char>, x: usize| #[trigger]
                    idx.by_tag.has(k, x) <==> (x < idx.n && ks[x as int] == KindSpec::Tag(k)) by {
                    if x < i {
                        assert(ks[x as int] == old_idx.kinds@[x as int]);
                    }
                }
                assert forall|k: Seq<char>, x: usize| #[trigger]
                    idx.by_class.has(k, x) <==> (x < idx.n && ks[x as int] == KindSpec::Class(k)) by {
                    if x < i {
                        assert(ks[x as int] == old_idx.kinds@[x as int]);
                    }
                }
                assert forall|k: Seq<char>, x: usize| #[trigger]
                    idx.by_id.has(k, x) <==> (x < idx.n && ks[x as int] == KindSpec::Id(k)) by {
                    if x < i {
                        assert(ks[x as int] == old_idx.kinds@[x as int]);
                    }
                }
            }
            i = i + 1;
        }
        proof {
            assert(rule_kinds(rules@).take(i as int) =~= rule_kinds(rules@));
        }
        idx
    }

    /// Indices of the rules that may match an element with this tag, these
    /// classes and this id, in increasing order: the universal rules and
    /// those keyed by the tag, one of the classes or the id.
    pub fn candidates_for(&self, tag: &str, classes: &[String], id: Option<&str>) -> (r: Vec<usize>)
        requires
            self.wf(),
        ensures
            forall|a: int, b: int| 0 <= a < b < r@.len() ==> r@[a] < r@[b],
            forall|x: usize|
                #[trigger] r@.contains(x) <==> (x < self.kinds().len() && candidate(
                    self.kinds()[x as int],
                    tag@,
                    view_strings(classes@),
                    opt_str_view(id),
                )),
    {
        let ghost ks = self.kinds@;
        let ghost cv = view_strings(classes@);
        let n = self.n;
        let mut mark: Vec<bool> = Vec::new();
        let mut i: usize = 0;
        while i < n
            invariant
                i <= n,
                mark@.len() == i,
                forall|x: int| 0 <= x < i ==> !mark@[x],
            decreases n - i,
        {
            mark.push(false);
            i = i + 1;
        }
        let mut j: usize = 0;
        while j < self.universal.len()
            invariant
                self.wf(),
                n == self.n,
                mark@.len() == n,
                j <= self.universal@.len(),
                forall|x: usize|
                    x < n ==> #[trigger] mark@[x as int] == self.universal@.take(j as int).contains(x),
            decreases self.universal.len() - j,
        {
            let y = self.universal[j];
            proof {
                assert(self.universal@.contains(y));
            }
            mark.set(y, true);
            proof {
                assert forall|x: usize| x < n implies #[trigger] mark@[x as int]
                    == self.universal@.take(j + 1).contains(x) by {
                    assert(self.universal@.take(j + 1) =~= self.universal@.take(j as int).push(y));
                    if self.universal@.take(j as int).contains(x) {
                        let m = choose|m: int| 0 <= m < j && self.universal@.take(j as int)[m] == x;
                        assert(self.universal@.take(j + 1)[m] == x);
                    }
                    if x == y {
                        assert(self.universal@.take(j + 1)[j as int] == x);
                    }
                }
            }
            j = j + 1;
        }
        proof {
            assert(self.universal@.take(j as int) =~= self.universal@);
        }
        self.by_tag.mark_key(tag, &mut mark);
        let mut c: usize = 0;
        while c < classes.len()
            invariant
                self.wf(),
                ks == self.kinds@,
                cv == view_strings(classes@),
                n == self.n,
                mark@.len() == n,
                c <= classes@.len(),
                forall|x: usize|
                    x < n ==> #[trigger] mark@[x as int] == (ks[x as int] is Universal || ks[x as int]
                        == KindSpec::Tag(tag@) || (exists|m: int|
                        0 <= m < c && ks[x as int] == KindSpec::Class(#[trigger] cv[m]))),
            decreases classes.len() - c,
        {
            let ghost before = mark@;
            self.by_class.mark_key(classes[c].as_str(), &mut mark);
            proof {
                assert(cv[c as int] == classes@[c as int]@);
                assert forall|x: usize| x < n implies #[trigger] mark@[x as int] == (ks[x as int] is Universal
                    || ks[x as int] == KindSpec::Tag(tag@) || (exists|m: int|
                    0 <= m < c + 1 && ks[x as int] == KindSpec::Class(#[trigger] cv[m]))) by {
                    if ks[x as int] == KindSpec::Class(cv[c as int]) {
                        assert(self.by_class.has(cv[c as int], x));
                    }
                    if exists|m: int| 0 <= m < c + 1 && ks[x as int] == KindSpec::Class(#[trigger] cv[m]) {
                        let m = choose|m: int| 0 <= m < c + 1 && ks[x as int] == KindSpec::Class(#[trigger] cv[m]);
                        if m == c as int {
                            assert(self.by_class.has(cv[c as int], x));
                        }
                    }
                }
            }
            c = c + 1;
        }
        match id {
            Some(x) => {
                self.by_id.mark_key(x, &mut mark);
            },
            None => {},
        }
        proof {
            assert forall|x: usize| x < n implies #[trigger] mark@[x as int] == candidate(
                ks[x as int],
                tag@,
                cv,
                opt_str_view(id),
            ) by {
                match ks[x as int] {
                    KindSpec::Class(cl) => {
                        if cv.contains(cl) {
                            let m = choose|m: int| 0 <= m < cv.len() && cv[m] == cl;
                            assert(ks[x as int] == KindSpec::Class(cv[m]));
                        }
                    },
                    _ => {},
                }
            }
        }
        let mut r: Vec<usize> = Vec::new();
        let mut x: usize = 0;
        while x < n
            invariant
                x <= n,
                mark@.len() == n,
                forall|a: int, b: int| 0 <= a < b < r@.len() ==> r@[a] < r@[b],
                forall|a: int| 0 <= a < r@.len() ==> r@[a] < x,
                forall|y: usize| #[trigger] r@.contains(y) <==> (y < x && mark@[y as int]),
            decreases n - x,
        {
            if mark[x] {
                proof {
                    assert forall|y: usize| #[trigger] r@.push(x).contains(y) <==> (y < x + 1 && mark@[y as int]) by {
                        if r@.push(x).contains(y) && y != x {
                            let m = choose|m: int| 0 <= m < r@.len() + 1 && r@.push(x)[m] == y;
                            assert(r@[m] == y);
                            assert(r@.contains(y));
                        }
                        if y < x && mark@[y as int] {
                            assert(r@.contains(y));
                            let m = choose|m: int| 0 <= m < r@.len() && r@[m] == y;
                            assert(r@.push(x)[m] == y);
                        }
                        if y == x {
                            assert(r@.push(x)[r@.len() as int] == y);
                        }
                    }
                }
                r.push(x);
            } else {
                proof {
                    assert forall|y: usize| #[trigger] r@.contains(y) <==> (y < x + 1 && mark@[y as int]) by {
                        if r@.contains(y) {
                            assert(y < x);
                        }
                    }
                }
            }
            x = x + 1;
        }
        proof {
            assert forall|y: usize| #[trigger] r@.contains(y) <==> (y < ks.len() && candidate(
                ks[y as int],
                tag@,
                cv,
                opt_str_view(id),
            )) by {
                if y < n {
                    assert(mark@[y as int] == candidate(ks[y as int], tag@, cv, opt_str_view(id)));
                }
            }
        }
        r
    }
}


// ---------------------------------------------------------------------------
// The index never misses a matching rule
// ---------------------------------------------------------------------------

/// `j` is the last part of `p` that is not a combinator.
pub open spec fn last_simple(p: Seq<PartSpec>, j: int) -> bool {
    &&& 0 <= j < p.len()
    &&& !is_comb(p[j])
    &&& forall|k: int| j < k < p.len() ==> is_comb(#[trigger] p[k])
}

proof fn lemma_scan_rest_combinators(
    p: Seq<PartSpec>,
    i: int,
    acc: Seq<(Seq<PartSpec>, bool)>,
)
    requires
        0 <= i <= p.len(),
        forall|k: int| i <= k < p.len() ==> is_comb(#[trigger] p[k]),
    ensures
        seg_scan(p, i, i, acc) == acc,
    decreases p.len() - i,
{
    if i < p.len() {
        lemma_scan_rest_combinators(p, i + 1, acc);
    }
}

proof fn lemma_scan_last_segment(
    p: Seq<PartSpec>,
    i: int,
    start: int,
    acc: Seq<(Seq<PartSpec>, bool)>,
    j: int,
)
    requires
        0 <= start <= i <= p.len(),
        last_simple(p, j),
        start <= j,
    ensures
        seg_scan(p, i, start, acc).len() > 0,
        seg_scan(p, i, start, acc).last().0.contains(p[j]),
    decreases p.len() - i,
{
    if i == p.len() {
        let seg = p.subrange(start, p.len() as int);
        assert(seg[j - start] == p[j]);
    } else if is_comb(p[i]) {
        if j < i {
            let seg = p.subrange(start, i);
            let acc2 = acc.push((seg, p[i] is Child));
            lemma_scan_rest_combinators(p, i + 1, acc2);
            assert(seg[j - start] == p[j]);
        } else {
            let acc2 = if start < i {
                acc.push((p.subrange(start, i), p[i] is Child))
            } else {
                acc
            };
            lemma_scan_last_segment(p, i + 1, i + 1, acc2, j);
        }
    } else {
        lemma_scan_last_segment(p, i + 1, start, acc, j);
    }
}

proof fn lemma_rightmost_simple(p: Seq<PartSpec>)
    ensures
        !(rightmost_spec(p) is Universal) ==> exists|j: int|
            last_simple(p, j) && match rightmost_spec(p) {
                KindSpec::Tag(t) => p[j] == PartSpec::Tag(t),
                KindSpec::Class(c) => p[j] == PartSpec::Class(c),
                KindSpec::Id(x) => p[j] == PartSpec::Id(x),
                KindSpec::Universal => true,
            },
    decreases p.len(),
{
    if p.len() > 0 {
        if is_comb(p.last()) {
            lemma_rightmost_simple(p.drop_last());
            if !(rightmost_spec(p) is Universal) {
                let j = choose|j: int|
                    last_simple(p.drop_last(), j) && match rightmost_spec(p.drop_last()) {
                        KindSpec::Tag(t) => p.drop_last()[j] == PartSpec::Tag(t),
                        KindSpec::Class(c) => p.drop_last()[j] == PartSpec::Class(c),
                        KindSpec::Id(x) => p.drop_last()[j] == PartSpec::Id(x),
                        KindSpec::Universal => true,
                    };
                assert(p[j] == p.drop_last()[j]);
                assert forall|k: int| j < k < p.len() implies is_comb(#[trigger] p[k]) by {
                    if k < p.len() - 1 {
                        assert(p[k] == p.drop_last()[k]);
                    }
                }
                assert(last_simple(p, j));
            }
        } else {
            let j = p.len() - 1;
            assert(last_simple(p, j));
        }
    }
}

/// A selector that matches an element has a rightmost kind that makes it a
/// candidate for that element (whose tag is already lower case): the
/// rightmost tag, class or id belongs to the compound selector that the
/// element itself must match.
pub proof fn lemma_match_is_candidate(
    parts: Seq<PartSpec>,
    tag: Seq<char>,
    classes: Seq<Seq<char>>,
    id: Option<Seq<char>>,
    attrs: Seq<(Seq<char>, Seq<char>)>,
    anc: Seq<(Seq<char>, Seq<Seq<char>>, Option<Seq<char>>)>,
)
    requires
        spec_to_lowercase(tag) == tag,
        matches_spec(parts, tag, classes, id, attrs, anc),
    ensures
        candidate(rightmost_spec(parts), tag, classes, id),
{
    lemma_rightmost_simple(parts);
    if !(rightmost_spec(parts) is Universal) {
        let j = choose|j: int|
            last_simple(parts, j) && match rightmost_spec(parts) {
                KindSpec::Tag(t) => parts[j] == PartSpec::Tag(t),
                KindSpec::Class(c) => parts[j] == PartSpec::Class(c),
                KindSpec::Id(x) => parts[j] == PartSpec::Id(x),
                KindSpec::Universal => true,
            };
        lemma_scan_last_segment(parts, 0, 0, Seq::empty(), j);
        let seg = segments(parts).last().0;
        let k = choose|k: int| 0 <= k < seg.len() && seg[k] == parts[j];
        assert(part_ok(seg[k], spec_to_lowercase(tag), classes, id, attrs));
    }
}

/// Every rule whose selector matches an element is among the candidates
/// that the index gives for that element (see `candidates_for`), for an
/// element whose tag is already lower case.
pub proof fn law_index_complete(
    rules: Seq<CssRule>,
    x: int,
    tag: Seq<char>,
    classes: Seq<Seq<char>>,
    id: Option<Seq<char>>,
    attrs: Seq<(Seq<char>, Seq<char>)>,
    anc: Seq<(Seq<char>, Seq<Seq<char>>, Option<Seq<char>>)>,
)
    requires
        0 <= x < rules.len(),
        rules[x].selectors@.len() > 0,
        spec_to_lowercase(tag) == tag,
        matches_spec(part_views(rules[x].selectors@[0].parts@), tag, classes, id, attrs, anc),
    ensures
        candidate(rule_kinds(rules)[x], tag, classes, id),
{
    lemma_match_is_candidate(part_views(rules[x].selectors@[0].parts@), tag, classes, id, attrs, anc);
}


// ---------------------------------------------------------------------------
// Copies
// ---------------------------------------------------------------------------

impl AttrMatch {
    /// A copy with equal view.
    pub fn duplicate(&self) -> (r: AttrMatch)
        ensures
            r.mv() == self.mv(),
    {
        match self {
            AttrMatch::Exists => AttrMatch::Exists,
            AttrMatch::Exact(v) => AttrMatch::Exact(copy_string(v)),
            AttrMatch::Word(v) => AttrMatch::Word(copy_string(v)),
            AttrMatch::Prefix(v) => AttrMatch::Prefix(copy_string(v)),
            AttrMatch::Suffix(v) => AttrMatch::Suffix(copy_string(v)),
            AttrMatch::Contains(v) => AttrMatch::Contains(copy_string(v)),
            AttrMatch::HyphenPrefix(v) => AttrMatch::HyphenPrefix(copy_string(v)),
        }
    }
}

impl SelectorPart {
    /// A copy with equal view.
    pub fn duplicate(&self) -> (r: SelectorPart)
        ensures
            r.pv() == self.pv(),
    {
        match self {
            SelectorPart::Tag(t) => SelectorPart::Tag(copy_string(t)),
            SelectorPart::Class(c) => SelectorPart::Class(copy_string(c)),
            SelectorPart::Id(i) => SelectorPart::Id(copy_string(i)),
            SelectorPart::Attribute(n, m) => SelectorPart::Attribute(copy_string(n), m.duplicate()),
            SelectorPart::Descendant => SelectorPart::Descendant,
            SelectorPart::Child => SelectorPart::Child,
            SelectorPart::Universal => SelectorPart::Universal,
            SelectorPart::PseudoClass(p) => SelectorPart::PseudoClass(copy_string(p)),
        }
    }
}

impl Selector {
    /// A copy with equal view.
    pub fn duplicate(&self) -> (r: Selector)
        ensures
            r.sv() == self.sv(),
    {
        let mut parts: Vec<SelectorPart> = Vec::new();
        let mut i: usize = 0;
        while i < self.parts.len()
            invariant
                i <= self.parts@.len(),
                part_views(parts@) == part_views(self.parts@).take(i as int),
            decreases self.parts.len() - i,
        {
            let p = self.parts[i].duplicate();
            proof {
                lemma_part_views_push(parts@, p);
                assert(part_views(self.parts@).take(i + 1) =~= part_views(self.parts@).take(
                    i as int,
                ).push(p.pv()));
            }
            parts.push(p);
            i = i + 1;
        }
        proof {
            assert(part_views(self.parts@).take(i as int) =~= part_views(self.parts@));
        }
        Selector { parts, specificity: self.specificity }
    }
}


// ---------------------------------------------------------------------------
// Specificity
// ---------------------------------------------------------------------------

/// What one part adds to specificity: 100 for an id, 10 for a class, an
/// attribute selector or a pseudo-class, 1 for a tag.
pub open spec fn part_weight(p: PartSpec) -> int {
    match p {
        PartSpec::Id(_) => 100,
        PartSpec::Class(_) => 10,
        PartSpec::Attribute(_, _) => 10,
        PartSpec::PseudoClass(_) => 10,
        PartSpec::Tag(_) => 1,
        _ => 0,
    }
}

pub open spec fn weights(parts: Seq<PartSpec>) -> int
    decreases parts.len(),
{
    if parts.len() == 0 {
        0
    } else {
        weights(parts.drop_last()) + part_weight(parts.last())
    }
}

proof fn lemma_weights_push(parts: Seq<PartSpec>, x: PartSpec)
    ensures
        weights(parts.push(x)) == weights(parts) + part_weight(x),
{
    assert(parts.push(x).drop_last() =~= parts);
}

proof fn lemma_flush_weights(cur: Seq<char>, parts: Seq<PartSpec>, sp: int)
    requires
        sp == weights(parts),
    ensures
        flush_spec(cur, parts, sp).2 == weights(flush_spec(cur, parts, sp).1),
{
    let t = trim(cur);
    if t.len() > 0 {
        lemma_weights_push(parts, PartSpec::Tag(spec_to_lowercase(t)));
    }
}

proof fn lemma_scan_weights(s: Seq<char>, i: int, cur: Seq<char>, parts: Seq<PartSpec>, sp: int)
    requires
        sp == weights(parts),
    ensures
        sel_scan(s, i, cur, parts, sp).1 == weights(sel_scan(s, i, cur, parts, sp).0),
    decreases s.len() - i,
{
    lemma_flush_weights(cur, parts, sp);
    let f = flush_spec(cur, parts, sp);
    if i < 0 || i >= s.len() {
    } else {
        let c = s[i];
        if c == '.' || c == '#' {
            let j = ident_end(s, i + 1);
            let name = s.subrange(i + 1, j);
            if name.len() > 0 {
                if c == '.' {
                    lemma_weights_push(f.1, PartSpec::Class(name));
                } else {
                    lemma_weights_push(f.1, PartSpec::Id(name));
                }
            }
            let p2 = if name.len() == 0 {
                f.1
            } else if c == '.' {
                f.1.push(PartSpec::Class(name))
            } else {
                f.1.push(PartSpec::Id(name))
            };
            let sp2 = if name.len() == 0 {
                f.2
            } else if c == '.' {
                f.2 + 10
            } else {
                f.2 + 100
            };
            if advances(i, j, s.len() as int) {
                lemma_scan_weights(s, j, f.0, p2, sp2);
            }
        } else if c == '[' {
            let (name, m, j) = attr_scan(s, i + 1, Seq::empty(), MatchSpec::Exists);
            lemma_weights_push(f.1, PartSpec::Attribute(trim(name), m));
            if advances(i, j, s.len() as int) {
                lemma_scan_weights(s, j, f.0, f.1.push(PartSpec::Attribute(trim(name), m)), f.2 + 10);
            }
        } else if c == ':' {
            let k = if i + 1 < s.len() && s[i + 1] == ':' {
                i + 2
            } else {
                i + 1
            };
            let e = ident_end(s, k);
            let j = if e < s.len() && s[e] == '(' {
                paren_skip(s, e + 1, 1)
            } else {
                e
            };
            lemma_weights_push(f.1, PartSpec::PseudoClass(s.subrange(k, e)));
            if advances(i, j, s.len() as int) {
                lemma_scan_weights(s, j, f.0, f.1.push(PartSpec::PseudoClass(s.subrange(k, e))), f.2 + 10);
            }
        } else if c == '>' {
            let j = ws_end(s, i + 1);
            lemma_weights_push(f.1, PartSpec::Child);
            if advances(i, j, s.len() as int) {
                lemma_scan_weights(s, j, f.0, f.1.push(PartSpec::Child), f.2);
            }
        } else if c == ' ' || c == '\t' || c == '\n' || c == '\r' {
            let j = ws_end(s, i + 1);
            let p2 = if j < s.len() && !combinator_follows(s[j]) {
                f.1.push(PartSpec::Descendant)
            } else {
                f.1
            };
            lemma_weights_push(f.1, PartSpec::Descendant);
            if advances(i, j, s.len() as int) {
                lemma_scan_weights(s, j, f.0, p2, f.2);
            }
        } else if c == '*' {
            lemma_weights_push(f.1, PartSpec::Universal);
            lemma_scan_weights(s, i + 1, f.0, f.1.push(PartSpec::Universal), f.2);
        } else {
            lemma_scan_weights(s, i + 1, cur.push(c), parts, sp);
        }
    }
}

/// The specificity of a parsed selector is the sum of its parts' weights:
/// 100 per id, 10 per class, attribute selector or pseudo-class, 1 per tag.
pub proof fn law_specificity(input: Seq<char>)
    ensures
        parse_selector_spec(input) matches Some(sel) ==> sel.specificity == weights(sel.parts),
{
    let s = trim(input);
    if s.len() > 0 {
        lemma_scan_weights(s, 0, Seq::empty(), Seq::empty(), 0);
    }
}


proof fn lemma_search_shift(
    seg: Seq<PartSpec>,
    child: bool,
    anc: Seq<(Seq<char>, Seq<Seq<char>>, Option<Seq<char>>)>,
    extra: Seq<(Seq<char>, Seq<Seq<char>>, Option<Seq<char>>)>,
    a: int,
)
    requires
        0 <= a <= anc.len(),
    ensures
        anc_search(seg, child, anc, a) matches Some(j) ==> 0 <= j < a && anc_search(
            seg,
            child,
            extra + anc,
            a + extra.len(),
        ) == Some(j + extra.len()),
    decreases a,
{
    if a > 0 {
        assert((extra + anc)[a + extra.len() - 1] == anc[a - 1]);
        if !anc_ok(seg, anc[a - 1]) && !child {
            lemma_search_shift(seg, child, anc, extra, a - 1);
        }
    }
}

proof fn lemma_walk_shift(
    segs: Seq<(Seq<PartSpec>, bool)>,
    k: int,
    anc: Seq<(Seq<char>, Seq<Seq<char>>, Option<Seq<char>>)>,
    extra: Seq<(Seq<char>, Seq<Seq<char>>, Option<Seq<char>>)>,
    a: int,
)
    requires
        0 <= a <= anc.len(),
        walk(segs, k, anc, a),
    ensures
        walk(segs, k, extra + anc, a + extra.len()),
    decreases k + 1,
{
    if k >= 0 {
        lemma_search_shift(segs[k].0, segs[k].1, anc, extra, a);
        let j = anc_search(segs[k].0, segs[k].1, anc, a)->0;
        lemma_walk_shift(segs, k - 1, anc, extra, j);
    }
}

/// A selector that matches an element still matches it when more distant
/// ancestors are put in front of the ancestor list.
pub proof fn law_match_survives_more_ancestors(
    parts: Seq<PartSpec>,
    tag: Seq<char>,
    classes: Seq<Seq<char>>,
    id: Option<Seq<char>>,
    attrs: Seq<(Seq<char>, Seq<char>)>,
    anc: Seq<(Seq<char>, Seq<Seq<char>>, Option<Seq<char>>)>,
    extra: Seq<(Seq<char>, Seq<Seq<char>>, Option<Seq<char>>)>,
)
    requires
        matches_spec(parts, tag, classes, id, attrs, anc),
    ensures
        matches_spec(parts, tag, classes, id, attrs, extra + anc),
{
    let segs = segments(parts);
    lemma_walk_shift(segs, segs.len() - 2, anc, extra, anc.len() as int);
    assert((extra + anc).len() == anc.len() + extra.len());
}


/// Every tag part is the lower-case form (`str::to_lowercase`) of a
/// non-empty piece of text without surrounding whitespace.
pub open spec fn tags_lowered(parts: Seq<PartSpec>) -> bool {
    forall|k: int|
        0 <= k < parts.len() && (#[trigger] parts[k]) is Tag ==> exists|t: Seq<char>|
            t.len() > 0 && trim(t) == t && parts[k]->Tag_0 == #[trigger] spec_to_lowercase(t)
}

proof fn lemma_push_keeps_lowered(parts: Seq<PartSpec>, p: PartSpec)
    requires
        tags_lowered(parts),
        p is Tag ==> exists|t: Seq<char>|
            t.len() > 0 && trim(t) == t && p->Tag_0 == #[trigger] spec_to_lowercase(t),
    ensures
        tags_lowered(parts.push(p)),
{
    assert forall|k: int| 0 <= k < parts.push(p).len() && (#[trigger] parts.push(p)[k]) is Tag implies exists|
        t: Seq<char>,
    | t.len() > 0 && trim(t) == t && parts.push(p)[k]->Tag_0 == #[trigger] spec_to_lowercase(t) by {
        if k < parts.len() {
            assert(parts.push(p)[k] == parts[k]);
        }
    }
}

proof fn lemma_flush_lowered(cur: Seq<char>, parts: Seq<PartSpec>, sp: int)
    requires
        tags_lowered(parts),
    ensures
        tags_lowered(flush_spec(cur, parts, sp).1),
{
    let t = trim(cur);
    if t.len() > 0 {
        lemma_trim_idem(cur);
        lemma_push_keeps_lowered(parts, PartSpec::Tag(spec_to_lowercase(t)));
    }
}

proof fn lemma_scan_lowered(s: Seq<char>, i: int, cur: Seq<char>, parts: Seq<PartSpec>, sp: int)
    requires
        tags_lowered(parts),
    ensures
        tags_lowered(sel_scan(s, i, cur, parts, sp).0),
    decreases s.len() - i,
{
    lemma_flush_lowered(cur, parts, sp);
    let f = flush_spec(cur, parts, sp);
    if 0 <= i < s.len() {
        let c = s[i];
        if c == '.' || c == '#' {
            let j = ident_end(s, i + 1);
            let name = s.subrange(i + 1, j);
            if name.len() > 0 {
                if c == '.' {
                    lemma_push_keeps_lowered(f.1, PartSpec::Class(name));
                } else {
                    lemma_push_keeps_lowered(f.1, PartSpec::Id(name));
                }
            }
            let p2 = if name.len() == 0 {
                f.1
            } else if c == '.' {
                f.1.push(PartSpec::Class(name))
            } else {
                f.1.push(PartSpec::Id(name))
            };
            let sp2 = if name.len() == 0 {
                f.2
            } else if c == '.' {
                f.2 + 10
            } else {
                f.2 + 100
            };
            if advances(i, j, s.len() as int) {
                lemma_scan_lowered(s, j, f.0, p2, sp2);
            }
        } else if c == '[' {
            let (name, m, j) = attr_scan(s, i + 1, Seq::empty(), MatchSpec::Exists);
            lemma_push_keeps_lowered(f.1, PartSpec::Attribute(trim(name), m));
            if advances(i, j, s.len() as int) {
                lemma_scan_lowered(s, j, f.0, f.1.push(PartSpec::Attribute(trim(name), m)), f.2 + 10);
            }
        } else if c == ':' {
            let k = if i + 1 < s.len() && s[i + 1] == ':' {
                i + 2
            } else {
                i + 1
            };
            let e = ident_end(s, k);
            let j = if e < s.len() && s[e] == '(' {
                paren_skip(s, e + 1, 1)
            } else {
                e
            };
            let p2 = f.1.push(PartSpec::PseudoClass(s.subrange(k, e)));
            lemma_push_keeps_lowered(f.1, PartSpec::PseudoClass(s.subrange(k, e)));
            if advances(i, j, s.len() as int) {
                lemma_scan_lowered(s, j, f.0, p2, f.2 + 10);
            }
        } else if c == '>' {
            let j = ws_end(s, i + 1);
            lemma_push_keeps_lowered(f.1, PartSpec::Child);
            if advances(i, j, s.len() as int) {
                lemma_scan_lowered(s, j, f.0, f.1.push(PartSpec::Child), f.2);
            }
        } else if c == ' ' || c == '\t' || c == '\n' || c == '\r' {
            let j = ws_end(s, i + 1);
            lemma_push_keeps_lowered(f.1, PartSpec::Descendant);
            let p2 = if j < s.len() && !combinator_follows(s[j]) {
                f.1.push(PartSpec::Descendant)
            } else {
                f.1
            };
            if advances(i, j, s.len() as int) {
                lemma_scan_lowered(s, j, f.0, p2, f.2);
            }
        } else if c == '*' {
            lemma_push_keeps_lowered(f.1, PartSpec::Universal);
            lemma_scan_lowered(s, i + 1, f.0, f.1.push(PartSpec::Universal), f.2);
        } else {
            lemma_scan_lowered(s, i + 1, cur.push(c), parts, sp);
        }
    }
}

/// A parsed selector has at least one part, nothing parses from blank
/// text, and every tag part is the lower-case form of a tag name written
/// in the selector.
pub proof fn law_selector_shape(input: Seq<char>)
    ensures
        trim(input).len() == 0 ==> parse_selector_spec(input) is None,
        parse_selector_spec(input) matches Some(ss) ==> ss.parts.len() > 0 && tags_lowered(ss.parts),
{
    let s = trim(input);
    if s.len() > 0 {
        lemma_scan_lowered(s, 0, Seq::empty(), Seq::empty(), 0);
    }
}


// ---------------------------------------------------------------------------
// Attribute selectors
// ---------------------------------------------------------------------------

/// What each attribute selector accepts, in terms of the attribute's value
/// `s`: `[n]` any value; `[n=x]` exactly `x`; `[n^=x]` `x` followed by
/// anything; `[n$=x]` anything followed by `x`; `[n*=x]` `x` anywhere;
/// `[n|=x]` `x` itself or `x-` followed by anything. An absent attribute
/// matches none of them.
pub proof fn law_attribute_selectors(x: Seq<char>, p: Seq<char>, q: Seq<char>, s: Seq<char>)
    ensures
        attr_ok(MatchSpec::Exists, Some(s)),
        attr_ok(MatchSpec::Exact(x), Some(x)),
        attr_ok(MatchSpec::Exact(x), Some(s)) ==> s == x,
        attr_ok(MatchSpec::Prefix(x), Some(x + q)),
        attr_ok(MatchSpec::Prefix(x), Some(s)) ==> x.len() <= s.len() && s == x + s.skip(x.len() as int),
        attr_ok(MatchSpec::Suffix(x), Some(p + x)),
        attr_ok(MatchSpec::Suffix(x), Some(s)) ==> x.len() <= s.len() && s == s.take(s.len() - x.len())
            + x,
        attr_ok(MatchSpec::Contains(x), Some(p + x + q)),
        attr_ok(MatchSpec::Contains(x), Some(s)) ==> exists|k: int|
            0 <= k && k + x.len() <= s.len() && #[trigger] s.subrange(k, k + x.len()) == x,
        attr_ok(MatchSpec::HyphenPrefix(x), Some(x)),
        attr_ok(MatchSpec::HyphenPrefix(x), Some(x + seq!['-'] + q)),
        !attr_ok(MatchSpec::Exists, None),
        !attr_ok(MatchSpec::Exact(x), None),
        !attr_ok(MatchSpec::Prefix(x), None),
        !attr_ok(MatchSpec::Suffix(x), None),
        !attr_ok(MatchSpec::Contains(x), None),
        !attr_ok(MatchSpec::HyphenPrefix(x), None),
        !attr_ok(MatchSpec::Word(x), None),
{
    assert((x + q).take(x.len() as int) =~= x);
    assert((p + x).skip((p + x).len() - x.len()) =~= x);
    if x.len() <= s.len() {
        assert(s =~= x + s.skip(x.len() as int) || s.take(x.len() as int) != x);
        assert(s =~= s.take(s.len() - x.len()) + x || s.skip(s.len() - x.len()) != x);
    }
    let c = p + x + q;
    assert(c.subrange(p.len() as int, p.len() + x.len() as int) =~= x);
    assert(crate::text::occurs_at(c, x, p.len() as int));
    crate::text::lemma_find_from_bounds(c, x, 0);
    crate::text::lemma_find_from_bounds(s, x, 0);
    if crate::text::contains(s, x) {
        let k = crate::text::find(s, x)->0;
        assert(s.subrange(k, k + x.len()) == x);
    }
    let h = x + seq!['-'] + q;
    assert(h.take((x.push('-')).len() as int) =~= x.push('-'));
}

/// A selector made of one attribute selector `[n...]` matches an element
/// exactly when the element's attribute `n` satisfies it, whatever the
/// element's tag, classes, id and ancestors.
pub proof fn law_attribute_selector_matches(
    n: Seq<char>,
    m: MatchSpec,
    tag: Seq<char>,
    classes: Seq<Seq<char>>,
    id: Option<Seq<char>>,
    attrs: Seq<(Seq<char>, Seq<char>)>,
    anc: Seq<(Seq<char>, Seq<Seq<char>>, Option<Seq<char>>)>,
)
    ensures
        matches_spec(seq![PartSpec::Attribute(n, m)], tag, classes, id, attrs, anc) == attr_ok(
            m,
            attr_lookup(attrs, n),
        ),
{
    let parts = seq![PartSpec::Attribute(n, m)];
    assert(!is_comb(parts[0]));
    assert(parts.subrange(0, 1) =~= parts);
    let e = Seq::<(Seq<PartSpec>, bool)>::empty();
    assert(seg_scan(parts, 1, 0, e) == e.push((parts.subrange(0, 1), false)));
    assert(e.push((parts.subrange(0, 1), false)) =~= seq![(parts, false)]);
    assert(seg_scan(parts, 0, 0, e) == seg_scan(parts, 1, 0, e));
    assert(segments(parts) == seq![(parts, false)]);
    let segs = segments(parts);
    assert(segs.last().0 == parts);
    assert(parts[0] == PartSpec::Attribute(n, m));
}

/// A character that may stand in an attribute name inside `[...]`.
pub open spec fn plain_name_char(c: char) -> bool {
    c != ']' && c != '=' && !is_attr_op(c)
}

proof fn lemma_attr_name(s: Seq<char>, i: int, k: int, name: Seq<char>, m: MatchSpec)
    requires
        0 <= i <= k < s.len(),
        forall|j: int| i <= j < k ==> plain_name_char(#[trigger] s[j]),
    ensures
        attr_scan(s, i, name, m) == attr_scan(s, k, name + s.subrange(i, k), m),
    decreases k - i,
{
    if i < k {
        lemma_attr_name(s, i + 1, k, name.push(s[i]), m);
        assert(name.push(s[i]) + s.subrange(i + 1, k) =~= name + s.subrange(i, k));
    } else {
        assert(name + s.subrange(i, k) =~= name);
    }
}

proof fn lemma_until_at(s: Seq<char>, i: int, e: int, c: char)
    requires
        0 <= i <= e < s.len(),
        s[e] == c,
        forall|j: int| i <= j < e ==> #[trigger] s[j] != c,
    ensures
        crate::text::until_char(s, i, c) == e,
    decreases e - i,
{
    if i < e {
        lemma_until_at(s, i + 1, e, c);
    }
}

/// How an attribute selector is read: `[n^='x']`, `[n$='x']`, `[n*='x']`,
/// `[n|='x']`, `[n~='x']` and `[n='x']` give one attribute part for the
/// trimmed name `n` and trimmed value `x` that tests, in turn, a prefix, a
/// suffix, a substring, a hyphen prefix, a word and the exact value, with
/// specificity 10. The name holds no `]`, `=` or operator character and
/// the value no single quote.
pub proof fn law_attribute_selector_parse(n: Seq<char>, op: Seq<char>, x: Seq<char>)
    requires
        op == "^"@ || op == "$"@ || op == "*"@ || op == "|"@ || op == "~"@ || op == ""@,
        forall|j: int| 0 <= j < n.len() ==> plain_name_char(#[trigger] n[j]),
        forall|j: int| 0 <= j < x.len() ==> #[trigger] x[j] != '\'',
    ensures
        ({
            let r = parse_selector_spec(seq!['['] + n + op + seq!['=', '\''] + x + seq!['\'', ']']);
            let a = trim(n);
            let v = trim(x);
            &&& r is Some
            &&& r->0.specificity == 10
            &&& op == "^"@ ==> r->0.parts == seq![PartSpec::Attribute(a, MatchSpec::Prefix(v))]
            &&& op == "$"@ ==> r->0.parts == seq![PartSpec::Attribute(a, MatchSpec::Suffix(v))]
            &&& op == "*"@ ==> r->0.parts == seq![PartSpec::Attribute(a, MatchSpec::Contains(v))]
            &&& op == "|"@ ==> r->0.parts == seq![PartSpec::Attribute(a, MatchSpec::HyphenPrefix(v))]
            &&& op == "~"@ ==> r->0.parts == seq![PartSpec::Attribute(a, MatchSpec::Word(v))]
            &&& op == ""@ ==> r->0.parts == seq![PartSpec::Attribute(a, MatchSpec::Exact(v))]
        }),
{
    reveal_strlit("^");
    reveal_strlit("$");
    reveal_strlit("*");
    reveal_strlit("|");
    reveal_strlit("~");
    reveal_strlit("");
    let s = seq!['['] + n + op + seq!['=', '\''] + x + seq!['\'', ']'];
    assert(s[0] == '[');
    assert(s.last() == ']');
    assert(!is_ws('[') && !is_ws(']'));
    crate::text::lemma_trim_id(s);
    let e0 = Seq::<char>::empty();
    let np: int = 1int + n.len();
    assert forall|j: int| 1 <= j < np implies plain_name_char(#[trigger] s[j]) by {
        assert(s[j] == n[j - 1]);
    }
    lemma_attr_name(s, 1, np, e0, MatchSpec::Exists);
    assert(e0 + s.subrange(1, np) =~= n);
    let qpos: int = np + op.len() + 1int;
    let close: int = qpos + 1int + x.len();
    assert(s[qpos] == '\'');
    assert(s[close] == '\'');
    assert(s[close + 1] == ']');
    assert(s.len() == close + 2);
    assert forall|j: int| qpos + 1 <= j < close implies #[trigger] s[j] != '\'' by {
        assert(s[j] == x[j - qpos - 1]);
    }
    lemma_until_at(s, qpos + 1, close, '\'');
    assert(s.subrange(qpos + 1, close) =~= x);
    let val = trim(x);
    let m = if op == ""@ {
        MatchSpec::Exact(val)
    } else {
        op_match(op[0], val)
    };
    if op == ""@ {
        assert(s[np] == '=');
        assert(!is_attr_op('=') && '=' != ']');
        assert(attr_value_spec(s, np + 1) == (val, close + 1));
    } else {
        assert(s[np] == op[0]);
        assert(s[np + 1] == '=');
        assert(attr_value_spec(s, np + 2) == (val, close + 1));
    }
    assert(attr_scan(s, close + 1, n, m) == (n, m, close + 2));
    assert(attr_scan(s, np, n, MatchSpec::Exists) == (n, m, close + 2));
    let part = PartSpec::Attribute(trim(n), m);
    let f = flush_spec(e0, Seq::empty(), 0);
    assert(trim(e0) =~= e0);
    assert(f == (e0, Seq::<PartSpec>::empty(), 0int));
    assert(sel_scan(s, close + 2, e0, seq![part], 10) == (seq![part], 10int)) by {
        assert(trim(e0) =~= e0);
    }
    assert(Seq::<PartSpec>::empty().push(part) =~= seq![part]);
    assert(sel_scan(s, 0, e0, Seq::empty(), 0) == (seq![part], 10int));
}


/// A selector made of one tag, one class or one id matches exactly the
/// elements whose lower-cased tag is that tag, whose classes include that
/// class, or whose id is that id, whatever their ancestors.
pub proof fn law_simple_selector_matches(
    p: PartSpec,
    tag: Seq<char>,
    classes: Seq<Seq<char>>,
    id: Option<Seq<char>>,
    attrs: Seq<(Seq<char>, Seq<char>)>,
    anc: Seq<(Seq<char>, Seq<Seq<char>>, Option<Seq<char>>)>,
)
    requires
        !is_comb(p),
    ensures
        p matches PartSpec::Tag(t) ==> (matches_spec(seq![p], tag, classes, id, attrs, anc) <==> t
            == spec_to_lowercase(tag)),
        p matches PartSpec::Class(c) ==> (matches_spec(seq![p], tag, classes, id, attrs, anc) <==> classes.contains(c)),
        p matches PartSpec::Id(i) ==> (matches_spec(seq![p], tag, classes, id, attrs, anc) <==> id == Some(i)),
        p matches PartSpec::Universal ==> matches_spec(seq![p], tag, classes, id, attrs, anc),
{
    let parts = seq![p];
    assert(parts.subrange(0, 1) =~= parts);
    let e = Seq::<(Seq<PartSpec>, bool)>::empty();
    assert(seg_scan(parts, 1, 0, e) == e.push((parts.subrange(0, 1), false)));
    assert(e.push((parts.subrange(0, 1), false)) =~= seq![(parts, false)]);
    assert(seg_scan(parts, 0, 0, e) == seg_scan(parts, 1, 0, e));
    assert(segments(parts) == seq![(parts, false)]);
    assert(parts[0] == p);
}


proof fn lemma_descendant_search(
    seg: Seq<PartSpec>,
    anc: Seq<(Seq<char>, Seq<Seq<char>>, Option<Seq<char>>)>,
    a: int,
)
    requires
        a <= anc.len(),
    ensures
        anc_search(seg, false, anc, a) is Some <==> exists|j: int| 0 <= j < a && anc_ok(seg, #[trigger] anc[j]),
    decreases a,
{
    if a > 0 {
        lemma_descendant_search(seg, anc, a - 1);
        if anc_search(seg, false, anc, a) is None {
            assert forall|j: int| 0 <= j < a implies !anc_ok(seg, #[trigger] anc[j]) by {
                if j < a - 1 {
                    if anc_ok(seg, anc[j]) {
                        assert(exists|i: int| 0 <= i < a - 1 && anc_ok(seg, #[trigger] anc[i]));
                    }
                }
            }
        }
    }
}

/// With two simple parts `a` and `b`: `a > b` matches an element exactly when
/// `b` holds of it and `a` holds of its parent; `a b` matches exactly when `b`
/// holds of it and `a` holds of some ancestor.
pub proof fn law_combinators(
    a: PartSpec,
    b: PartSpec,
    tag: Seq<char>,
    classes: Seq<Seq<char>>,
    id: Option<Seq<char>>,
    attrs: Seq<(Seq<char>, Seq<char>)>,
    anc: Seq<(Seq<char>, Seq<Seq<char>>, Option<Seq<char>>)>,
)
    requires
        !is_comb(a),
        !is_comb(b),
    ensures
        matches_spec(seq![a, PartSpec::Child, b], tag, classes, id, attrs, anc) <==> part_ok(
            b,
            spec_to_lowercase(tag),
            classes,
            id,
            attrs,
        ) && anc.len() > 0 && part_ok(a, spec_to_lowercase(anc.last().0), anc.last().1, anc.last().2, Seq::empty()),
        matches_spec(seq![a, PartSpec::Descendant, b], tag, classes, id, attrs, anc) <==> part_ok(
            b,
            spec_to_lowercase(tag),
            classes,
            id,
            attrs,
        ) && exists|j: int|
            0 <= j < anc.len() && part_ok(
                a,
                spec_to_lowercase((#[trigger] anc[j]).0),
                anc[j].1,
                anc[j].2,
                Seq::empty(),
            ),
{
    let e = Seq::<(Seq<PartSpec>, bool)>::empty();
    assert forall|c: PartSpec| is_comb(c) implies segments(seq![a, c, b]) == seq![
        (seq![a], c is Child),
        (seq![b], false),
    ] by {
        let p = seq![a, c, b];
        assert(p.subrange(0, 1) =~= seq![a]);
        assert(p.subrange(2, 3) =~= seq![b]);
        let e1 = e.push((p.subrange(0, 1), c is Child));
        assert(seg_scan(p, 3, 2, e1) == e1.push((p.subrange(2, 3), false)));
        assert(seg_scan(p, 2, 2, e1) == seg_scan(p, 3, 2, e1));
        assert(seg_scan(p, 1, 0, e) == seg_scan(p, 2, 2, e1));
        assert(seg_scan(p, 0, 0, e) == seg_scan(p, 1, 0, e));
        assert(e1.push((p.subrange(2, 3), false)) =~= seq![(seq![a], c is Child), (seq![b], false)]);
    }
    assert(is_comb(PartSpec::Child));
    assert(is_comb(PartSpec::Descendant));
    let lt = spec_to_lowercase(tag);
    assert(seg_ok(seq![b], lt, classes, id, attrs) <==> part_ok(b, lt, classes, id, attrs)) by {
        if part_ok(b, lt, classes, id, attrs) {
            assert forall|k: int| 0 <= k < 1 implies part_ok(#[trigger] seq![b][k], lt, classes, id, attrs) by {
                assert(seq![b][k] == b);
            }
        }
        assert(seq![b][0] == b);
    }
    assert forall|x: (Seq<char>, Seq<Seq<char>>, Option<Seq<char>>)| anc_ok(seq![a], x) <==> part_ok(
        a,
        spec_to_lowercase(x.0),
        x.1,
        x.2,
        Seq::empty(),
    ) by {
        if part_ok(a, spec_to_lowercase(x.0), x.1, x.2, Seq::empty()) {
            assert forall|k: int| 0 <= k < 1 implies part_ok(
                #[trigger] seq![a][k],
                spec_to_lowercase(x.0),
                x.1,
                x.2,
                Seq::empty(),
            ) by {
                assert(seq![a][k] == a);
            }
        }
        assert(seq![a][0] == a);
    }
    let n = anc.len() as int;
    let segs_c = segments(seq![a, PartSpec::Child, b]);
    assert(segs_c == seq![(seq![a], true), (seq![b], false)]);
    assert(segs_c[0] == (seq![a], true));
    assert(segs_c.len() == 2);
    assert(segs_c.last().0 == seq![b]);
    if let Some(j) = anc_search(seq![a], true, anc, n) {
        assert(walk(segs_c, -1, anc, j));
    }
    if n > 0 {
        assert(anc.last() == anc[n - 1]);
        assert(anc_search(seq![a], true, anc, n) == if anc_ok(seq![a], anc[n - 1]) {
            Some(n - 1)
        } else {
            None::<int>
        });
    }
    assert(walk(segs_c, 0, anc, n) <==> anc_search(seq![a], true, anc, n) is Some);
    lemma_descendant_search(seq![a], anc, n);
    let segs_d = segments(seq![a, PartSpec::Descendant, b]);
    assert(segs_d == seq![(seq![a], false), (seq![b], false)]);
    assert(segs_d[0] == (seq![a], false));
    assert(segs_d.len() == 2);
    assert(segs_d.last().0 == seq![b]);
    if let Some(j) = anc_search(seq![a], false, anc, n) {
        assert(walk(segs_d, -1, anc, j));
    }
    assert(walk(segs_d, 0, anc, n) <==> anc_search(seq![a], false, anc, n) is Some);
}

} // verus!
