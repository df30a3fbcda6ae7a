//! Reading a stylesheet: comments are dropped, each `selector { ... }` block
//! becomes one rule per comma-separated selector, and `@media` blocks keep
//! their condition and the rules inside them. Which media conditions hold
//! is decided by the caller, which knows the viewport.
use vstd::prelude::*;

use crate::selector::{
    parse_selector, parse_selector_spec, CssRule, Selector, SelectorSpec, MAX_SELECTOR_LEN,
};
use crate::text::{
    chars_of, copy_string, lemma_trim_idem, lemma_trim_len, lemma_until_char, push_char, split,
    split_char, split_scan, split_str, split_str_spec, starts_with, starts_with_str,
    starts_with_vec, str_eq, string_of_range, trim, trim_char_range, trim_matches, trim_range,
    trim_str, until_char, until_char_exec, view_strings,
};

verus! {

broadcast use vstd::string::group_string_axioms;

// ---------------------------------------------------------------------------
// Comments
// ---------------------------------------------------------------------------

/// The position after the `*/` that closes a comment whose body starts at
/// `k`, or the end of the text.
pub open spec fn comment_end(s: Seq<char>, k: int) -> int
    decreases s.len() - k,
{
    if k < 0 || k >= s.len() {
        s.len() as int
    } else if s[k] == '*' && k + 1 < s.len() && s[k + 1] == '/' {
        k + 2
    } else {
        comment_end(s, k + 1)
    }
}

pub open spec fn strip_scan(s: Seq<char>, i: int, out: Seq<char>) -> Seq<char>
    decreases s.len() - i,
{
    if i < 0 || i >= s.len() {
        out
    } else if s[i] == '/' && i + 1 < s.len() && s[i + 1] == '*' {
        let j = comment_end(s, i + 2);
        if i < j <= s.len() {
            strip_scan(s, j, out)
        } else {
            out
        }
    } else {
        strip_scan(s, i + 1, out.push(s[i]))
    }
}

/// The text with every `/* ... */` comment removed (an unclosed one runs to
/// the end).
pub open spec fn strip_comments_spec(s: Seq<char>) -> Seq<char> {
    strip_scan(s, 0, Seq::empty())
}

pub proof fn lemma_comment_end(s: Seq<char>, k: int)
    requires
        0 <= k <= s.len(),
    ensures
        k <= comment_end(s, k) <= s.len(),
    decreases s.len() - k,
{
    if k < s.len() && !(s[k] == '*' && k + 1 < s.len() && s[k + 1] == '/') {
        lemma_comment_end(s, k + 1);
    }
}

pub proof fn lemma_strip_scan_len(s: Seq<char>, i: int, out: Seq<char>)
    requires
        0 <= i <= s.len(),
        out.len() <= i,
    ensures
        strip_scan(s, i, out).len() <= s.len(),
    decreases s.len() - i,
{
    if i < s.len() {
        if s[i] == '/' && i + 1 < s.len() && s[i + 1] == '*' {
            lemma_comment_end(s, i + 2);
            lemma_strip_scan_len(s, comment_end(s, i + 2), out);
        } else {
            lemma_strip_scan_len(s, i + 1, out.push(s[i]));
        }
    }
}

fn comment_end_exec(v: &Vec<char>, k: usize) -> (j: usize)
    requires
        k <= v.len(),
    ensures
        j == comment_end(v@, k as int),
        k <= j <= v.len(),
{
    let mut j = k;
    while j < v.len()
        invariant
            k <= j <= v.len(),
            comment_end(v@, j as int) == comment_end(v@, k as int),
        decreases v.len() - j,
    {
        if v[j] == '*' && j + 1 < v.len() && v[j + 1] == '/' {
            return j + 2;
        }
        j = j + 1;
    }
    j
}

/// Removes CSS comments.
pub fn strip_comments(css: &str) -> (r: String)
    ensures
        r@ == strip_comments_spec(css@),
        r@.len() <= css@.len(),
{
    let v = chars_of(css);
    let mut out = String::new();
    let mut i: usize = 0;
    while i < v.len()
        invariant
            i <= v.len(),
            v@ == css@,
            strip_scan(v@, i as int, out@) == strip_scan(v@, 0, Seq::empty()),
        decreases v.len() - i,
    {
        if v[i] == '/' && i + 1 < v.len() && v[i + 1] == '*' {
            let j = comment_end_exec(&v, i + 2);
            i = j;
        } else {
            push_char(&mut out, v[i]);
            i = i + 1;
        }
    }
    proof {
        lemma_strip_scan_len(css@, 0, Seq::empty());
    }
    out
}

// ---------------------------------------------------------------------------
// Blocks and items
// ---------------------------------------------------------------------------

/// The position of the `}` that closes a block whose body starts at `k`
/// with `d` braces open, or the end of the text.
pub open spec fn block_end(s: Seq<char>, k: int, d: int) -> int
    decreases s.len() - k,
{
    if k < 0 || k >= s.len() {
        s.len() as int
    } else if s[k] == '{' {
        block_end(s, k + 1, d + 1)
    } else if s[k] == '}' {
        if d - 1 == 0 {
            k
        } else {
            block_end(s, k + 1, d - 1)
        }
    } else {
        block_end(s, k + 1, d)
    }
}

pub proof fn lemma_block_end(s: Seq<char>, k: int, d: int)
    requires
        0 <= k <= s.len(),
    ensures
        k <= block_end(s, k, d) <= s.len(),
    decreases s.len() - k,
{
    if k < s.len() {
        if s[k] == '{' {
            lemma_block_end(s, k + 1, d + 1);
        } else if s[k] == '}' {
            if d - 1 != 0 {
                lemma_block_end(s, k + 1, d - 1);
            }
        } else {
            lemma_block_end(s, k + 1, d);
        }
    }
}

fn block_end_exec(v: &Vec<char>, k: usize) -> (j: usize)
    requires
        1 <= k <= v.len(),
    ensures
        j == block_end(v@, k as int, 1),
        k <= j <= v.len(),
{
    let mut j = k;
    let mut d: usize = 1;
    while j < v.len()
        invariant
            1 <= k <= j <= v.len(),
            1 <= d <= j - k + 1,
            block_end(v@, j as int, d as int) == block_end(v@, k as int, 1),
        decreases v.len() - j,
    {
        if v[j] == '{' {
            d = d + 1;
        } else if v[j] == '}' {
            if d == 1 {
                return j;
            }
            d = d - 1;
        }
        j = j + 1;
    }
    j
}

/// The mathematical value of a rule.
pub struct RuleSpec {
    pub selectors: Seq<SelectorSpec>,
    pub declarations: Seq<char>,
    pub specificity: int,
}

/// What a stylesheet holds: rules, and `@media` blocks with their condition
/// and contents.
pub enum ItemSpec {
    Rule(RuleSpec),
    Media(Seq<char>, Seq<ItemSpec>),
}

impl CssRule {
    pub open spec fn rv(&self) -> RuleSpec {
        RuleSpec {
            selectors: self.selectors@.map_values(|s: Selector| s.sv()),
            declarations: self.declarations@,
            specificity: self.specificity as int,
        }
    }
}

/// One item of a stylesheet.
#[derive(Debug)]
pub enum StyleItem {
    /// A rule with one selector.
    Rule(CssRule),
    /// An `@media` block: its condition (without `@media`) and its items.
    Media(String, Vec<StyleItem>),
}

impl StyleItem {
    pub open spec fn iv(&self) -> ItemSpec
        decreases self,
    {
        match self {
            StyleItem::Rule(r) => ItemSpec::Rule(r.rv()),
            StyleItem::Media(c, inner) => ItemSpec::Media(
                c@,
                Seq::new(
                    inner@.len(),
                    |k: int|
                        if 0 <= k < inner@.len() {
                            inner@[k].iv()
                        } else {
                            arbitrary()
                        },
                ),
            ),
        }
    }
}

pub open spec fn items_view(s: Seq<StyleItem>) -> Seq<ItemSpec> {
    Seq::new(s.len(), |k: int| s[k].iv())
}

pub proof fn lemma_media_view(c: String, inner: Vec<StyleItem>)
    ensures
        StyleItem::Media(c, inner).iv() == ItemSpec::Media(c@, items_view(inner@)),
{
    assert(StyleItem::Media(c, inner).iv()->Media_1 =~= items_view(inner@));
}

pub proof fn lemma_items_view_push(s: Seq<StyleItem>, x: StyleItem)
    ensures
        items_view(s.push(x)) == items_view(s).push(x.iv()),
{
    assert(items_view(s.push(x)) =~= items_view(s).push(x.iv()));
}

pub open spec fn media_keyword() -> Seq<char> {
    seq!['@', 'm', 'e', 'd', 'i', 'a']
}

/// `str::trim_start_matches` with a non-empty string pattern: every leading
/// copy of `p` removed.
pub open spec fn strip_prefix_all(s: Seq<char>, p: Seq<char>) -> Seq<char>
    decreases s.len(),
{
    if p.len() > 0 && starts_with(s, p) {
        strip_prefix_all(s.skip(p.len() as int), p)
    } else {
        s
    }
}

/// The rules of a `selectors { declarations }` block: one per non-blank
/// comma-separated selector that parses, each with the trimmed declarations.
/// A selector longer than `MAX_SELECTOR_LEN` characters, whose specificity
/// could overflow its counter, is skipped.
pub open spec fn rules_of(pieces: Seq<Seq<char>>, decl: Seq<char>) -> Seq<ItemSpec>
    decreases pieces.len(),
{
    if pieces.len() == 0 {
        Seq::empty()
    } else {
        let prev = rules_of(pieces.drop_last(), decl);
        let t = trim(pieces.last());
        if t.len() == 0 || t.len() > MAX_SELECTOR_LEN {
            prev
        } else {
            match parse_selector_spec(t) {
                Some(ss) => prev.push(
                    ItemSpec::Rule(
                        RuleSpec {
                            selectors: seq![ss],
                            declarations: trim(decl),
                            specificity: ss.specificity,
                        },
                    ),
                ),
                None => prev,
            }
        }
    }
}

/// The items of a stylesheet.
pub open spec fn items_spec(css: Seq<char>) -> Seq<ItemSpec>
    decreases css.len(), 1int, 0int,
{
    let s = strip_comments_spec(css);
    proof {
        lemma_strip_scan_len(css, 0, Seq::empty());
    }
    sheet_scan(s, 0, Seq::empty(), Seq::empty())
}

/// The items read from position `i` of comment-free text `s`, with `cur` the
/// selector text read so far and `items` those already read.
pub open spec fn sheet_scan(s: Seq<char>, i: int, cur: Seq<char>, items: Seq<ItemSpec>) -> Seq<
    ItemSpec,
>
    decreases s.len(), 0int, s.len() - i,
{
    if i < 0 || i >= s.len() {
        items
    } else if s[i] == '{' {
        proof {
            lemma_block_end(s, i + 1, 1);
        }
        let e = block_end(s, i + 1, 1);
        let decl = s.subrange(i + 1, e);
        let sel = trim(cur);
        let new_items = if starts_with(sel, media_keyword()) {
            seq![ItemSpec::Media(trim(strip_prefix_all(sel, media_keyword())), items_spec(decl))]
        } else if sel.len() > 0 && sel[0] != '@' {
            rules_of(split(sel, ','), decl)
        } else {
            Seq::empty()
        };
        let j = if e < s.len() {
            e + 1
        } else {
            e
        };
        sheet_scan(s, j, Seq::empty(), items + new_items)
    } else {
        sheet_scan(s, i + 1, cur.push(s[i]), items)
    }
}

pub proof fn lemma_split_pieces_len(s: Seq<char>, sep: char)
    ensures
        forall|k: int| 0 <= k < split(s, sep).len() ==> #[trigger] split(s, sep)[k].len() <= s.len(),
{
    lemma_split_scan_len(s, sep);
}

proof fn lemma_split_scan_len(s: Seq<char>, sep: char)
    ensures
        forall|k: int|
            0 <= k < split_scan(s, sep).0.len() ==> #[trigger] split_scan(s, sep).0[k].len()
                <= s.len(),
        split_scan(s, sep).1.len() <= s.len(),
    decreases s.len(),
{
    if s.len() > 0 {
        lemma_split_scan_len(s.drop_last(), sep);
    }
}

fn strip_media_prefix(sv: &Vec<char>, kw: &Vec<char>) -> (r: (usize, usize))
    requires
        kw@ == media_keyword(),
    ensures
        r.0 <= r.1 <= sv@.len(),
        sv@.subrange(r.0 as int, r.1 as int) == trim(strip_prefix_all(sv@, media_keyword())),
{
    let mut i: usize = 0;
    proof {
        assert(sv@.skip(0) =~= sv@);
    }
    while sv.len() - i >= 6 && sv[i] == '@' && sv[i + 1] == 'm' && sv[i + 2] == 'e' && sv[i + 3]
        == 'd' && sv[i + 4] == 'i' && sv[i + 5] == 'a'
        invariant
            i <= sv@.len(),
            kw@ == media_keyword(),
            strip_prefix_all(sv@.skip(i as int), media_keyword()) == strip_prefix_all(
                sv@,
                media_keyword(),
            ),
        decreases sv.len() - i,
    {
        proof {
            let t = sv@.skip(i as int);
            assert(t.take(6) =~= media_keyword());
            assert(t.skip(6) =~= sv@.skip(i + 6));
        }
        i = i + 6;
    }
    proof {
        let t = sv@.skip(i as int);
        if starts_with(t, media_keyword()) {
            assert(t[0] == sv@[i as int]);
            assert(t.take(6)[0] == '@');
            assert(t.take(6)[1] == 'm');
            assert(t.take(6)[2] == 'e');
            assert(t.take(6)[3] == 'd');
            assert(t.take(6)[4] == 'i');
            assert(t.take(6)[5] == 'a');
            assert(t[1] == sv@[i + 1]);
            assert(t[2] == sv@[i + 2]);
            assert(t[3] == sv@[i + 3]);
            assert(t[4] == sv@[i + 4]);
            assert(t[5] == sv@[i + 5]);
        }
        assert(sv@.subrange(i as int, sv@.len() as int) =~= t);
    }
    trim_range(sv, i, sv.len())
}

/// Reads the items of a stylesheet, `@media` blocks included whatever their
/// condition.
pub fn parse_style_items(css: &str) -> (r: Vec<StyleItem>)
    ensures
        items_view(r@) == items_spec(css@),
    decreases css@.len(),
{
    let stripped = strip_comments(css);
    let v = chars_of(stripped.as_str());
    let kw: Vec<char> = vec!['@', 'm', 'e', 'd', 'i', 'a'];
    proof {
        assert(kw@ =~= media_keyword());
    }
    let mut items: Vec<StyleItem> = Vec::new();
    let mut cur = String::new();
    let mut i: usize = 0;
    proof {
        assert(items_view(items@) =~= Seq::<ItemSpec>::empty());
    }
    while i < v.len()
        invariant
            i <= v.len(),
            cur@.len() <= i,
            v@ == strip_comments_spec(css@),
            v@.len() <= css@.len(),
            kw@ == media_keyword(),
            sheet_scan(v@, i as int, cur@, items_view(items@)) == sheet_scan(
                v@,
                0,
                Seq::empty(),
                Seq::empty(),
            ),
        decreases v.len() - i,
    {
        if v[i] == '{' {
            let e = block_end_exec(&v, i + 1);
            let decl = string_of_range(&v, i + 1, e);
            let sel = trim_str(cur.as_str());
            let sv = chars_of(sel.as_str());
            let ghost base = items_view(items@);
            if starts_with_vec(&sv, &kw) {
                let (a, b) = strip_media_prefix(&sv, &kw);
                let cond = string_of_range(&sv, a, b);
                let inner = parse_style_items(decl.as_str());
                let item = StyleItem::Media(cond, inner);
                proof {
                    lemma_media_view(cond, inner);
                    lemma_items_view_push(items@, item);
                    assert(base.push(item.iv()) =~= base + seq![item.iv()]);
                }
                items.push(item);
            } else if sv.len() > 0 && sv[0] != '@' {
                let declarations = trim_str(decl.as_str());
                let pieces = split_char(sel.as_str(), ',');
                let ghost pv = view_strings(pieces@);
                proof {
                    lemma_split_pieces_len(sel@, ',');
                    lemma_trim_len(cur@);
                    assert(pv.take(0) =~= Seq::<Seq<char>>::empty());
                    assert(base + rules_of(pv.take(0), decl@) =~= base);
                }
                let mut k: usize = 0;
                while k < pieces.len()
                    invariant
                        k <= pieces@.len(),
                        pv == view_strings(pieces@),
                        pv == split(sel@, ','),
                        forall|m: int| 0 <= m < pv.len() ==> #[trigger] pv[m].len() <= sel@.len(),
                        declarations@ == trim(decl@),
                        items_view(items@) == base + rules_of(pv.take(k as int), decl@),
                    decreases pieces.len() - k,
                {
                    let t = trim_str(pieces[k].as_str());
                    proof {
                        assert(pv.take(k + 1).drop_last() =~= pv.take(k as int));
                        assert(pv.take(k + 1).last() == pieces@[k as int]@);
                        assert(pv[k as int] == pieces@[k as int]@);
                        lemma_trim_len(pieces@[k as int]@);
                        lemma_trim_idem(pieces@[k as int]@);
                    }
                    let tlen = chars_of(t.as_str()).len();
                    if tlen > 0 && tlen <= MAX_SELECTOR_LEN {
                        match parse_selector(t.as_str()) {
                            Some(s) => {
                                let spec = s.specificity;
                                let ghost ss = s.sv();
                                let rule = CssRule {
                                    selectors: vec![s],
                                    declarations: copy_string(&declarations),
                                    specificity: spec,
                                };
                                let item = StyleItem::Rule(rule);
                                proof {
                                    assert(rule.rv().selectors =~= seq![ss]);
                                    lemma_items_view_push(items@, item);
                                    assert(base + rules_of(pv.take(k + 1), decl@) =~= (base
                                        + rules_of(pv.take(k as int), decl@)).push(item.iv()));
                                }
                                items.push(item);
                            },
                            None => {},
                        }
                    }
                    k = k + 1;
                }
                proof {
                    assert(pv.take(k as int) =~= pv);
                }
            } else {
                proof {
                    assert(base + Seq::<ItemSpec>::empty() =~= base);
                }
            }
            cur = String::new();
            i = if e < v.len() {
                e + 1
            } else {
                e
            };
        } else {
            push_char(&mut cur, v[i]);
            i = i + 1;
        }
    }
    items
}


impl CssRule {
    /// A copy with equal view.
    pub fn duplicate(&self) -> (r: CssRule)
        ensures
            r.rv() == self.rv(),
    {
        let mut sels: Vec<Selector> = Vec::new();
        let mut i: usize = 0;
        while i < self.selectors.len()
            invariant
                i <= self.selectors@.len(),
                sels@.map_values(|s: Selector| s.sv()) == self.selectors@.map_values(
                    |s: Selector| s.sv(),
                ).take(i as int),
            decreases self.selectors.len() - i,
        {
            let x = self.selectors[i].duplicate();
            proof {
                assert(sels@.push(x).map_values(|s: Selector| s.sv()) =~= sels@.map_values(
                    |s: Selector| s.sv(),
                ).push(x.sv()));
                assert(self.selectors@.map_values(|s: Selector| s.sv()).take(i + 1)
                    =~= self.selectors@.map_values(|s: Selector| s.sv()).take(i as int).push(
                    x.sv(),
                ));
            }
            sels.push(x);
            i = i + 1;
        }
        proof {
            assert(self.selectors@.map_values(|s: Selector| s.sv()).take(i as int)
                =~= self.selectors@.map_values(|s: Selector| s.sv()));
        }
        CssRule {
            selectors: sels,
            declarations: copy_string(&self.declarations),
            specificity: self.specificity,
        }
    }
}

// ---------------------------------------------------------------------------
// Media blocks
// ---------------------------------------------------------------------------

/// The number of `@media` blocks in an item, nested ones included.
pub open spec fn count_item(it: ItemSpec) -> nat
    decreases it, 0int,
{
    match it {
        ItemSpec::Rule(_) => 0,
        ItemSpec::Media(_, inner) => 1 + count_upto(inner, inner.len() as int),
    }
}

/// The number of `@media` blocks in the first `k` items.
pub open spec fn count_upto(items: Seq<ItemSpec>, k: int) -> nat
    decreases items, k,
{
    if k <= 0 || k > items.len() {
        0
    } else {
        count_upto(items, k - 1) + count_item(items[k - 1])
    }
}

/// The conditions of the `@media` blocks of an item, in document order,
/// each before those nested in it.
pub open spec fn conds_item(it: ItemSpec) -> Seq<Seq<char>>
    decreases it, 0int,
{
    match it {
        ItemSpec::Rule(_) => Seq::empty(),
        ItemSpec::Media(c, inner) => seq![c] + conds_upto(inner, inner.len() as int),
    }
}

pub open spec fn conds_upto(items: Seq<ItemSpec>, k: int) -> Seq<Seq<char>>
    decreases items, k,
{
    if k <= 0 || k > items.len() {
        Seq::empty()
    } else {
        conds_upto(items, k - 1) + conds_item(items[k - 1])
    }
}

/// Whether the `@media` block numbered `p` (in the order of `conds_upto`)
/// was accepted; blocks beyond the answers given are not.
pub open spec fn accepted_at(acc: Seq<bool>, p: int) -> bool {
    0 <= p < acc.len() && acc[p]
}

/// The rules of an item that apply when the `@media` blocks are accepted as
/// `acc` says, the item's first block being numbered `p`.
pub open spec fn flat_item(it: ItemSpec, acc: Seq<bool>, p: int) -> Seq<RuleSpec>
    decreases it, 0int,
{
    match it {
        ItemSpec::Rule(r) => seq![r],
        ItemSpec::Media(_, inner) => if accepted_at(acc, p) {
            flat_upto(inner, inner.len() as int, acc, p + 1)
        } else {
            Seq::empty()
        },
    }
}

pub open spec fn flat_upto(items: Seq<ItemSpec>, k: int, acc: Seq<bool>, p: int) -> Seq<RuleSpec>
    decreases items, k,
{
    if k <= 0 || k > items.len() {
        Seq::empty()
    } else {
        flat_upto(items, k - 1, acc, p) + flat_item(items[k - 1], acc, p + count_upto(items, k - 1))
    }
}

pub open spec fn rules_view(s: Seq<CssRule>) -> Seq<RuleSpec> {
    s.map_values(|r: CssRule| r.rv())
}

pub proof fn lemma_conds_count_item(it: ItemSpec)
    ensures
        conds_item(it).len() == count_item(it),
    decreases it, 0int,
{
    match it {
        ItemSpec::Rule(_) => {},
        ItemSpec::Media(_, inner) => {
            lemma_conds_count_upto(inner, inner.len() as int);
        },
    }
}

pub proof fn lemma_conds_count_upto(items: Seq<ItemSpec>, k: int)
    ensures
        conds_upto(items, k).len() == count_upto(items, k),
    decreases items, k,
{
    if 0 < k <= items.len() {
        lemma_conds_count_upto(items, k - 1);
        lemma_conds_count_item(items[k - 1]);
    }
}

fn conditions_item(it: &StyleItem, out: &mut Vec<String>)
    ensures
        view_strings(final(out)@) == view_strings(old(out)@) + conds_item(it.iv()),
    decreases it,
{
    match it {
        StyleItem::Rule(_) => {
            proof {
                assert(view_strings(out@) + Seq::<Seq<char>>::empty() =~= view_strings(out@));
            }
        },
        StyleItem::Media(c, inner) => {
            let ghost base = view_strings(out@);
            let ghost iv = items_view(inner@);
            proof {
                lemma_media_view(*c, *inner);
            }
            let cc = copy_string(c);
            out.push(cc);
            proof {
                assert(view_strings(out@) =~= base.push(c@));
                assert(conds_upto(iv, 0) =~= Seq::<Seq<char>>::empty());
            }
            let mut k: usize = 0;
            while k < inner.len()
                invariant
                    k <= inner@.len(),
                    *it is Media,
                    it->Media_1 == *inner,
                    iv == items_view(inner@),
                    view_strings(out@) == base + seq![c@] + conds_upto(iv, k as int),
                decreases inner.len() - k,
            {
                proof {
                    assert(decreases_to!(*it => it->Media_1));
                    assert(decreases_to!(*inner => inner@));
                    assert(decreases_to!(inner@ => inner@[k as int]));
                }
                let ghost before = view_strings(out@);
                conditions_item(&inner[k], out);
                proof {
                    assert(iv[k as int] == inner@[k as int].iv());
                    assert(view_strings(out@) =~= base + seq![c@] + conds_upto(iv, k + 1));
                }
                k = k + 1;
            }
            proof {
                assert(view_strings(out@) =~= view_strings(old(out)@) + conds_item(it.iv()));
            }
        },
    }
}

/// The conditions of all `@media` blocks, in document order, each before
/// those nested in it; `select_rules` takes one answer per condition, in
/// this order.
pub fn media_conditions(items: &Vec<StyleItem>) -> (r: Vec<String>)
    ensures
        view_strings(r@) == conds_upto(items_view(items@), items@.len() as int),
        r@.len() == count_upto(items_view(items@), items@.len() as int),
{
    let ghost iv = items_view(items@);
    let mut out: Vec<String> = Vec::new();
    let mut k: usize = 0;
    proof {
        assert(view_strings(out@) =~= conds_upto(iv, 0));
    }
    while k < items.len()
        invariant
            k <= items@.len(),
            iv == items_view(items@),
            view_strings(out@) == conds_upto(iv, k as int),
        decreases items.len() - k,
    {
        conditions_item(&items[k], &mut out);
        proof {
            assert(iv[k as int] == items@[k as int].iv());
        }
        k = k + 1;
    }
    proof {
        lemma_conds_count_upto(iv, iv.len() as int);
    }
    out
}

fn select_item(it: &StyleItem, acc: &Vec<bool>, p: usize, out: &mut Vec<CssRule>) -> (q: usize)
    requires
        p + count_item(it.iv()) <= usize::MAX,
    ensures
        q == p + count_item(it.iv()),
        rules_view(final(out)@) == rules_view(old(out)@) + flat_item(it.iv(), acc@, p as int),
    decreases it,
{
    match it {
        StyleItem::Rule(r) => {
            let d = r.duplicate();
            proof {
                assert(rules_view(out@.push(d)) =~= rules_view(out@) + seq![r.rv()]);
            }
            out.push(d);
            p
        },
        StyleItem::Media(_, inner) => {
            let ghost base = rules_view(out@);
            let ghost iv = items_view(inner@);
            proof {
                lemma_media_view(it->Media_0, *inner);
            }
            let on = p < acc.len() && acc[p];
            let mut k: usize = 0;
            let mut q = p + 1;
            proof {
                assert(flat_upto(iv, 0, acc@, p + 1) =~= Seq::<RuleSpec>::empty());
                assert(rules_view(out@) =~= base + Seq::<RuleSpec>::empty());
            }
            while k < inner.len()
                invariant
                    k <= inner@.len(),
                    *it is Media,
                    it->Media_1 == *inner,
                    iv == items_view(inner@),
                    p + 1 + count_upto(iv, iv.len() as int) <= usize::MAX,
                    q == p + 1 + count_upto(iv, k as int),
                    on == accepted_at(acc@, p as int),
                    on ==> rules_view(out@) == base + flat_upto(iv, k as int, acc@, p + 1),
                    !on ==> rules_view(out@) == base,
                decreases inner.len() - k,
            {
                proof {
                    assert(iv[k as int] == inner@[k as int].iv());
                    lemma_count_upto_mono(iv, k + 1, iv.len() as int);
                }
                proof {
                    assert(decreases_to!(*it => it->Media_1));
                    assert(decreases_to!(*inner => inner@));
                    assert(decreases_to!(inner@ => inner@[k as int]));
                }
                if on {
                    let q2 = select_item(&inner[k], acc, q, out);
                    proof {
                        assert(rules_view(out@) =~= base + flat_upto(iv, k + 1, acc@, p + 1));
                    }
                    q = q2;
                } else {
                    q = q + count_media(&inner[k]);
                }
                k = k + 1;
            }
            proof {
                if !on {
                    assert(rules_view(out@) =~= base + Seq::<RuleSpec>::empty());
                }
            }
            q
        },
    }
}

pub proof fn lemma_count_upto_mono(items: Seq<ItemSpec>, j: int, k: int)
    requires
        0 <= j <= k <= items.len(),
    ensures
        count_upto(items, j) <= count_upto(items, k),
    decreases k - j,
{
    if j < k {
        lemma_count_upto_mono(items, j, k - 1);
    }
}

/// The number of `@media` blocks in an item, nested ones included.
fn count_media(it: &StyleItem) -> (n: usize)
    requires
        count_item(it.iv()) <= usize::MAX,
    ensures
        n == count_item(it.iv()),
    decreases it,
{
    match it {
        StyleItem::Rule(_) => 0,
        StyleItem::Media(_, inner) => {
            let ghost iv = items_view(inner@);
            proof {
                lemma_media_view(it->Media_0, *inner);
            }
            let mut n: usize = 1;
            let mut k: usize = 0;
            while k < inner.len()
                invariant
                    k <= inner@.len(),
                    *it is Media,
                    it->Media_1 == *inner,
                    iv == items_view(inner@),
                    1 + count_upto(iv, iv.len() as int) <= usize::MAX,
                    n == 1 + count_upto(iv, k as int),
                decreases inner.len() - k,
            {
                proof {
                    assert(iv[k as int] == inner@[k as int].iv());
                    lemma_count_upto_mono(iv, k + 1, iv.len() as int);
                }
                proof {
                    assert(decreases_to!(*it => it->Media_1));
                    assert(decreases_to!(*inner => inner@));
                    assert(decreases_to!(inner@ => inner@[k as int]));
                }
                n = n + count_media(&inner[k]);
                k = k + 1;
            }
            n
        },
    }
}

/// The rules that apply when each `@media` block is accepted or not as
/// `accepted` says, one answer per condition of `media_conditions`, in
/// document order. A block that is not accepted contributes nothing, the
/// blocks nested in it included.
pub fn select_rules(items: &Vec<StyleItem>, accepted: &Vec<bool>) -> (r: Vec<CssRule>)
    requires
        count_upto(items_view(items@), items@.len() as int) <= usize::MAX,
    ensures
        rules_view(r@) == flat_upto(items_view(items@), items@.len() as int, accepted@, 0),
{
    let ghost iv = items_view(items@);
    let mut out: Vec<CssRule> = Vec::new();
    let mut k: usize = 0;
    let mut q: usize = 0;
    proof {
        assert(rules_view(out@) =~= flat_upto(iv, 0, accepted@, 0));
    }
    while k < items.len()
        invariant
            k <= items@.len(),
            iv == items_view(items@),
            count_upto(iv, iv.len() as int) <= usize::MAX,
            q == count_upto(iv, k as int),
            rules_view(out@) == flat_upto(iv, k as int, accepted@, 0),
        decreases items.len() - k,
    {
        proof {
            assert(iv[k as int] == items@[k as int].iv());
            lemma_count_upto_mono(iv, k + 1, iv.len() as int);
        }
        q = select_item(&items[k], accepted, q, &mut out);
        proof {
            assert(rules_view(out@) =~= flat_upto(iv, k + 1, accepted@, 0));
        }
        k = k + 1;
    }
    out
}


// ---------------------------------------------------------------------------
// Media queries
// ---------------------------------------------------------------------------

/// One `and`-separated part of a media query.
#[derive(Debug)]
pub enum MediaFeature {
    /// A part without a colon, such as `screen`.
    Bare(String),
    /// `(name: value)`, both trimmed.
    Pair(String, String),
}

/// A media query as read, before the viewport is consulted.
#[derive(Debug)]
pub enum MediaQuery {
    /// Empty, `all` or `screen`: always applies.
    Always,
    /// `print`: never applies.
    Never,
    /// Applies when every feature does.
    Features(Vec<MediaFeature>),
}

pub enum FeatureSpec {
    Bare(Seq<char>),
    Pair(Seq<char>, Seq<char>),
}

pub enum QuerySpec {
    Always,
    Never,
    Features(Seq<FeatureSpec>),
}

impl MediaFeature {
    pub open spec fn fv(&self) -> FeatureSpec {
        match self {
            MediaFeature::Bare(b) => FeatureSpec::Bare(b@),
            MediaFeature::Pair(n, v) => FeatureSpec::Pair(n@, v@),
        }
    }
}

impl MediaQuery {
    pub open spec fn qv(&self) -> QuerySpec {
        match self {
            MediaQuery::Always => QuerySpec::Always,
            MediaQuery::Never => QuerySpec::Never,
            MediaQuery::Features(fs) => QuerySpec::Features(fs@.map_values(|f: MediaFeature| f.fv())),
        }
    }
}

/// A part of a query: trimmed, stripped of surrounding parentheses, and
/// split at its first colon.
pub open spec fn feature_spec(part: Seq<char>) -> FeatureSpec {
    let f = trim(trim_matches(trim_matches(trim(part), '('), ')'));
    let c = until_char(f, 0, ':');
    if c < f.len() {
        FeatureSpec::Pair(trim(f.subrange(0, c)), trim(f.subrange(c + 1, f.len() as int)))
    } else {
        FeatureSpec::Bare(f)
    }
}

/// How a media condition reads: empty, `all` and `screen` always apply,
/// `print` never does; otherwise a leading `screen and` or `all and` is
/// dropped and the rest is split at ` and ` into features.
pub open spec fn media_query_spec(cond: Seq<char>) -> QuerySpec {
    let t = trim(cond);
    if t.len() == 0 || t == "all"@ || t == "screen"@ {
        QuerySpec::Always
    } else if t == "print"@ {
        QuerySpec::Never
    } else {
        let rest = trim(
            if starts_with(t, "screen and"@) {
                t.skip(10)
            } else if starts_with(t, "all and"@) {
                t.skip(7)
            } else {
                t
            },
        );
        QuerySpec::Features(split_str_spec(rest, " and "@).map_values(|p: Seq<char>| feature_spec(p)))
    }
}

fn read_feature(part: &str) -> (r: MediaFeature)
    ensures
        r.fv() == feature_spec(part@),
{
    let t = trim_str(part);
    let v = chars_of(t.as_str());
    let (a, b) = trim_char_range(&v, 0, v.len(), '(');
    let (c, d) = trim_char_range(&v, a, b, ')');
    let (e, f) = trim_range(&v, c, d);
    proof {
        assert(v@.subrange(0, v@.len() as int) =~= v@);
        assert(v@.subrange(a as int, b as int) == trim_matches(trim(part@), '('));
        assert(v@.subrange(c as int, d as int) == trim_matches(v@.subrange(a as int, b as int), ')'));
    }
    let ghost fv = v@.subrange(e as int, f as int);
    let colon = until_char_exec(&v, e, ':');
    proof {
        lemma_until_char(v@, e as int, ':');
        lemma_until_char(fv, 0, ':');
        lemma_until_char_shift(v@, e as int, f as int, ':');
    }
    if colon < f {
        let (na, nb) = trim_range(&v, e, colon);
        let (va, vb) = trim_range(&v, colon + 1, f);
        proof {
            assert(fv.subrange(0, colon - e) =~= v@.subrange(e as int, colon as int));
            assert(fv.subrange(colon - e + 1, fv.len() as int) =~= v@.subrange(colon + 1, f as int));
        }
        MediaFeature::Pair(string_of_range(&v, na, nb), string_of_range(&v, va, vb))
    } else {
        MediaFeature::Bare(string_of_range(&v, e, f))
    }
}

/// `until_char` inside `v[lo..hi]` agrees with `until_char` on `v` from `lo`
/// when the character occurs before `hi`, and passes `hi` otherwise.
proof fn lemma_until_char_shift(v: Seq<char>, lo: int, hi: int, c: char)
    requires
        0 <= lo <= hi <= v.len(),
    ensures
        until_char(v, lo, c) < hi ==> until_char(v.subrange(lo, hi), 0, c) == until_char(v, lo, c) - lo,
        until_char(v, lo, c) >= hi ==> until_char(v.subrange(lo, hi), 0, c) == hi - lo,
    decreases hi - lo,
{
    let w = v.subrange(lo, hi);
    lemma_until_char(v, lo, c);
    if lo < hi {
        assert(w[0] == v[lo]);
        if v[lo] != c {
            lemma_until_char_shift(v, lo + 1, hi, c);
            lemma_until_char_skip(w, c);
            assert(w.subrange(1, w.len() as int) =~= v.subrange(lo + 1, hi));
            assert(until_char(v, lo, c) == until_char(v, lo + 1, c));
            assert(until_char(w, 0, c) == until_char(v.subrange(lo + 1, hi), 0, c) + 1);
        } else {
            assert(until_char(v, lo, c) == lo);
            assert(until_char(w, 0, c) == 0);
        }
    } else {
        assert(until_char(w, 0, c) == 0);
    }
}

/// Scanning from 1 is scanning the tail from 0, shifted.
proof fn lemma_until_char_skip(w: Seq<char>, c: char)
    requires
        w.len() > 0,
        w[0] != c,
    ensures
        until_char(w, 0, c) == until_char(w.subrange(1, w.len() as int), 0, c) + 1,
{
    lemma_until_char_from(w, 1, c);
}

/// `until_char(w, i, c)` is `i` plus the scan of `w[i..]` from 0.
proof fn lemma_until_char_from(w: Seq<char>, i: int, c: char)
    requires
        0 <= i <= w.len(),
    ensures
        until_char(w, i, c) == until_char(w.subrange(i, w.len() as int), 0, c) + i,
    decreases w.len() - i,
{
    let t = w.subrange(i, w.len() as int);
    if i < w.len() {
        assert(t[0] == w[i]);
        if w[i] != c {
            lemma_until_char_from(w, i + 1, c);
            lemma_until_char_from(t, 1, c);
            assert(t.subrange(1, t.len() as int) =~= w.subrange(i + 1, w.len() as int));
        }
    }
}

/// Reads a media condition (see `media_query_spec`).
pub fn parse_media_query(cond: &str) -> (r: MediaQuery)
    ensures
        r.qv() == media_query_spec(cond@),
{
    let t = trim_str(cond);
    proof {
        reveal_strlit("all");
        reveal_strlit("screen");
        reveal_strlit("print");
        reveal_strlit("screen and");
        reveal_strlit("all and");
        reveal_strlit(" and ");
    }
    let v = chars_of(t.as_str());
    if v.len() == 0 || str_eq(t.as_str(), "all") || str_eq(t.as_str(), "screen") {
        return MediaQuery::Always;
    }
    if str_eq(t.as_str(), "print") {
        return MediaQuery::Never;
    }
    let skip: usize = if starts_with_str(t.as_str(), "screen and") {
        10
    } else if starts_with_str(t.as_str(), "all and") {
        7
    } else {
        0
    };
    let (a, b) = trim_range(&v, skip, v.len());
    proof {
        assert(v@.subrange(skip as int, v@.len() as int) =~= v@.skip(skip as int));
    }
    let rest = string_of_range(&v, a, b);
    proof {
        let tt = trim(cond@);
        assert(v@ == tt);
        let rest_spec = trim(
            if starts_with(tt, "screen and"@) {
                tt.skip(10)
            } else if starts_with(tt, "all and"@) {
                tt.skip(7)
            } else {
                tt
            },
        );
        if skip == 0 {
            assert(v@.skip(0) =~= v@);
        }
        assert(rest@ == rest_spec);
    }
    let parts = split_str(rest.as_str(), " and ");
    let ghost pv = view_strings(parts@);
    let mut out: Vec<MediaFeature> = Vec::new();
    let mut i: usize = 0;
    while i < parts.len()
        invariant
            i <= parts@.len(),
            pv == view_strings(parts@),
            out@.len() == i,
            forall|j: int| 0 <= j < i ==> #[trigger] out@[j].fv() == feature_spec(pv[j]),
        decreases parts.len() - i,
    {
        let f = read_feature(parts[i].as_str());
        out.push(f);
        i = i + 1;
    }
    proof {
        assert(out@.map_values(|f: MediaFeature| f.fv()) =~= pv.map_values(
            |p: Seq<char>| feature_spec(p),
        ));
    }
    MediaQuery::Features(out)
}

// ---------------------------------------------------------------------------
// One selector per rule
// ---------------------------------------------------------------------------

/// A rule with exactly one selector, whose specificity is the rule's.
pub open spec fn rule_ok(r: RuleSpec) -> bool {
    r.selectors.len() == 1 && r.specificity == r.selectors[0].specificity
}

/// Every rule of the items, nested ones included, has exactly one selector,
/// whose specificity is the rule's.
pub open spec fn single_selector_items(items: Seq<ItemSpec>) -> bool
    decreases items,
{
    forall|i: int|
        0 <= i < items.len() ==> match #[trigger] items[i] {
            ItemSpec::Rule(r) => rule_ok(r),
            ItemSpec::Media(_, inner) => single_selector_items(inner),
        }
}

proof fn lemma_single_concat(a: Seq<ItemSpec>, b: Seq<ItemSpec>)
    requires
        single_selector_items(a),
        single_selector_items(b),
    ensures
        single_selector_items(a + b),
{
    assert forall|i: int| 0 <= i < (a + b).len() implies match #[trigger] (a + b)[i] {
        ItemSpec::Rule(r) => rule_ok(r),
        ItemSpec::Media(_, inner) => single_selector_items(inner),
    } by {
        if i < a.len() {
            assert((a + b)[i] == a[i]);
        } else {
            assert((a + b)[i] == b[i - a.len()]);
        }
    }
}

proof fn lemma_rules_of_single(pieces: Seq<Seq<char>>, decl: Seq<char>)
    ensures
        single_selector_items(rules_of(pieces, decl)),
    decreases pieces.len(),
{
    if pieces.len() > 0 {
        lemma_rules_of_single(pieces.drop_last(), decl);
        let prev = rules_of(pieces.drop_last(), decl);
        let t = trim(pieces.last());
        if t.len() > 0 {
            match parse_selector_spec(t) {
                Some(ss) => {
                    let r = RuleSpec {
                        selectors: seq![ss],
                        declarations: trim(decl),
                        specificity: ss.specificity,
                    };
                    lemma_single_concat(prev, seq![ItemSpec::Rule(r)]);
                    assert(prev.push(ItemSpec::Rule(r)) =~= prev + seq![ItemSpec::Rule(r)]);
                },
                None => {},
            }
        }
    }
}

proof fn lemma_items_single(css: Seq<char>)
    ensures
        single_selector_items(items_spec(css)),
    decreases css.len(), 1int, 0int,
{
    let s = strip_comments_spec(css);
    lemma_strip_scan_len(css, 0, Seq::empty());
    lemma_sheet_single(s, 0, Seq::empty(), Seq::empty());
}

proof fn lemma_sheet_single(s: Seq<char>, i: int, cur: Seq<char>, items: Seq<ItemSpec>)
    requires
        single_selector_items(items),
    ensures
        single_selector_items(sheet_scan(s, i, cur, items)),
    decreases s.len(), 0int, s.len() - i,
{
    if 0 <= i < s.len() {
        if s[i] == '{' {
            lemma_block_end(s, i + 1, 1);
            let e = block_end(s, i + 1, 1);
            let decl = s.subrange(i + 1, e);
            let sel = trim(cur);
            let new_items = if starts_with(sel, media_keyword()) {
                seq![ItemSpec::Media(trim(strip_prefix_all(sel, media_keyword())), items_spec(decl))]
            } else if sel.len() > 0 && sel[0] != '@' {
                rules_of(split(sel, ','), decl)
            } else {
                Seq::empty()
            };
            if starts_with(sel, media_keyword()) {
                lemma_items_single(decl);
                let m = ItemSpec::Media(trim(strip_prefix_all(sel, media_keyword())), items_spec(decl));
                assert(single_selector_items(seq![m])) by {
                    assert(seq![m][0] == m);
                }
            } else if sel.len() > 0 && sel[0] != '@' {
                lemma_rules_of_single(split(sel, ','), decl);
            }
            lemma_single_concat(items, new_items);
            let j = if e < s.len() {
                e + 1
            } else {
                e
            };
            lemma_sheet_single(s, j, Seq::empty(), items + new_items);
        } else {
            lemma_sheet_single(s, i + 1, cur.push(s[i]), items);
        }
    }
}

proof fn lemma_flat_item_single(it: ItemSpec, acc: Seq<bool>, p: int)
    requires
        single_selector_items(seq![it]),
    ensures
        forall|i: int| 0 <= i < flat_item(it, acc, p).len() ==> rule_ok(#[trigger] flat_item(it, acc, p)[i]),
    decreases it, 0int,
{
    assert(seq![it][0] == it);
    let out = flat_item(it, acc, p);
    if let ItemSpec::Media(_, inner) = it {
        if accepted_at(acc, p) {
            lemma_flat_upto_single(inner, inner.len() as int, acc, p + 1);
            assert(out == flat_upto(inner, inner.len() as int, acc, p + 1));
        } else {
            assert(out.len() == 0);
        }
    } else {
        let r = it->Rule_0;
        assert(rule_ok(r));
        assert(out =~= seq![r]);
        assert forall|i: int| 0 <= i < out.len() implies rule_ok(#[trigger] out[i]) by {
            assert(out[i] == r);
        }
    }
}

proof fn lemma_flat_upto_single(items: Seq<ItemSpec>, k: int, acc: Seq<bool>, p: int)
    requires
        single_selector_items(items),
    ensures
        forall|i: int| 0 <= i < flat_upto(items, k, acc, p).len() ==> rule_ok(#[trigger] flat_upto(items, k, acc, p)[i]),
    decreases items, k,
{
    if 0 < k <= items.len() {
        lemma_flat_upto_single(items, k - 1, acc, p);
        let it = items[k - 1];
        assert(single_selector_items(seq![it])) by {
            assert(seq![it][0] == it);
        }
        let q = p + count_upto(items, k - 1);
        lemma_flat_item_single(it, acc, q);
        let a = flat_upto(items, k - 1, acc, p);
        let b = flat_item(it, acc, q);
        assert forall|i: int| 0 <= i < (a + b).len() implies rule_ok(#[trigger] (a + b)[i]) by {
            if i < a.len() {
                assert((a + b)[i] == a[i]);
            } else {
                assert((a + b)[i] == b[i - a.len()]);
            }
        }
    }
}

/// Every rule a stylesheet yields, whatever the media answers, has exactly
/// one selector, and the rule's specificity is that selector's: a
/// comma-separated list becomes one rule per selector.
pub proof fn law_one_selector_per_rule(css: Seq<char>, acc: Seq<bool>)
    ensures
        forall|i: int|
            0 <= i < flat_upto(items_spec(css), items_spec(css).len() as int, acc, 0).len()
                ==> rule_ok(#[trigger] flat_upto(items_spec(css), items_spec(css).len() as int, acc, 0)[i]),
{
    lemma_items_single(css);
    lemma_flat_upto_single(items_spec(css), items_spec(css).len() as int, acc, 0);
}


// ---------------------------------------------------------------------------
// Comments and other at-rules yield nothing
// ---------------------------------------------------------------------------

proof fn lemma_comment_end_shift(p: Seq<char>, u: Seq<char>, k: int)
    requires
        0 <= k <= u.len(),
    ensures
        comment_end(p + u, p.len() + k) == p.len() + comment_end(u, k),
    decreases u.len() - k,
{
    let s = p + u;
    if k < u.len() {
        assert(s[p.len() + k] == u[k]);
        if k + 1 < u.len() {
            assert(s[p.len() + k + 1] == u[k + 1]);
        }
        if !(u[k] == '*' && k + 1 < u.len() && u[k + 1] == '/') {
            lemma_comment_end_shift(p, u, k + 1);
        }
    }
}

proof fn lemma_strip_shift(p: Seq<char>, u: Seq<char>, i: int, out: Seq<char>)
    requires
        0 <= i <= u.len(),
    ensures
        strip_scan(p + u, p.len() + i, out) == strip_scan(u, i, out),
    decreases u.len() - i,
{
    let s = p + u;
    if i < u.len() {
        assert(s[p.len() + i] == u[i]);
        if i + 1 < u.len() {
            assert(s[p.len() + i + 1] == u[i + 1]);
        }
        if u[i] == '/' && i + 1 < u.len() && u[i + 1] == '*' {
            lemma_comment_end_shift(p, u, i + 2);
            lemma_comment_end(u, i + 2);
            let j = comment_end(u, i + 2);
            if i < j <= u.len() {
                lemma_strip_shift(p, u, j, out);
            }
        } else {
            lemma_strip_shift(p, u, i + 1, out.push(u[i]));
        }
    }
}

proof fn lemma_strip_out(s: Seq<char>, i: int, out: Seq<char>)
    requires
        0 <= i,
    ensures
        strip_scan(s, i, out) == out + strip_scan(s, i, Seq::empty()),
    decreases s.len() - i,
{
    if i < s.len() {
        if s[i] == '/' && i + 1 < s.len() && s[i + 1] == '*' {
            let j = comment_end(s, i + 2);
            if i < j <= s.len() {
                lemma_strip_out(s, j, out);
                lemma_strip_out(s, j, Seq::empty());
                assert(out + Seq::<char>::empty() =~= out);
            } else {
                assert(out + Seq::<char>::empty() =~= out);
            }
        } else {
            lemma_strip_out(s, i + 1, out.push(s[i]));
            lemma_strip_out(s, i + 1, seq![s[i]]);
            assert(Seq::<char>::empty().push(s[i]) =~= seq![s[i]]);
            assert(out.push(s[i]) + strip_scan(s, i + 1, Seq::empty()) =~= out + (seq![s[i]]
                + strip_scan(s, i + 1, Seq::empty())));
        }
    } else {
        assert(out + Seq::<char>::empty() =~= out);
    }
}

/// Text without `/` passes comment stripping unchanged.
proof fn lemma_strip_plain(s: Seq<char>, i: int, k: int, out: Seq<char>)
    requires
        0 <= i <= k <= s.len(),
        forall|m: int| i <= m < k ==> s[m] != '/',
    ensures
        strip_scan(s, i, out) == strip_scan(s, k, out + s.subrange(i, k)),
    decreases k - i,
{
    if i < k {
        lemma_strip_plain(s, i + 1, k, out.push(s[i]));
        assert(out.push(s[i]) + s.subrange(i + 1, k) =~= out + s.subrange(i, k));
    } else {
        assert(out + s.subrange(i, k) =~= out);
    }
}

proof fn lemma_comment_end_at(s: Seq<char>, k: int, e: int)
    requires
        0 <= k <= e,
        e + 1 < s.len(),
        s[e] == '*',
        s[e + 1] == '/',
        forall|m: int| k <= m < e ==> !(#[trigger] s[m] == '*' && s[m + 1] == '/'),
    ensures
        comment_end(s, k) == e + 2,
    decreases e - k,
{
    if k < e {
        lemma_comment_end_at(s, k + 1, e);
    }
}

/// A stylesheet that starts with a comment yields what the rest of it
/// yields: the text of a comment never makes a rule.
pub proof fn law_comment_yields_nothing(x: Seq<char>, rest: Seq<char>)
    requires
        forall|m: int| 0 <= m < x.len() - 1 ==> !(#[trigger] x[m] == '*' && x[m + 1] == '/'),
    ensures
        items_spec(seq!['/', '*'] + x + seq!['*', '/'] + rest) == items_spec(rest),
{
    let c = seq!['/', '*'] + x + seq!['*', '/'];
    let s = c + rest;
    let e = c.len() - 2;
    assert(s[0] == '/' && s[1] == '*');
    assert(s[e] == '*' && s[e + 1] == '/');
    assert forall|m: int| 2 <= m < e implies !(#[trigger] s[m] == '*' && s[m + 1] == '/') by {
        assert(s[m] == x[m - 2]);
        if m + 1 < e {
            assert(s[m + 1] == x[m - 1]);
        } else {
            assert(s[m + 1] == '*');
        }
    }
    lemma_comment_end_at(s, 2, e);
    lemma_strip_shift(c, rest, 0, Seq::empty());
    assert(strip_comments_spec(s) == strip_comments_spec(rest));
}

proof fn lemma_block_end_shift(p: Seq<char>, u: Seq<char>, k: int, d: int)
    requires
        0 <= k <= u.len(),
    ensures
        block_end(p + u, p.len() + k, d) == p.len() + block_end(u, k, d),
    decreases u.len() - k,
{
    if k < u.len() {
        assert((p + u)[p.len() + k] == u[k]);
        if u[k] == '{' {
            lemma_block_end_shift(p, u, k + 1, d + 1);
        } else if u[k] == '}' {
            if d - 1 != 0 {
                lemma_block_end_shift(p, u, k + 1, d - 1);
            }
        } else {
            lemma_block_end_shift(p, u, k + 1, d);
        }
    }
}

proof fn lemma_sheet_shift(p: Seq<char>, u: Seq<char>, i: int, cur: Seq<char>, items: Seq<ItemSpec>)
    requires
        0 <= i <= u.len(),
    ensures
        sheet_scan(p + u, p.len() + i, cur, items) == sheet_scan(u, i, cur, items),
    decreases u.len() - i,
{
    let s = p + u;
    if i < u.len() {
        assert(s[p.len() + i] == u[i]);
        if u[i] == '{' {
            lemma_block_end_shift(p, u, i + 1, 1);
            lemma_block_end(u, i + 1, 1);
            let e = block_end(u, i + 1, 1);
            assert(s.subrange(p.len() + i + 1, p.len() + e) =~= u.subrange(i + 1, e));
            let j = if e < u.len() {
                e + 1
            } else {
                e
            };
            let sel = trim(cur);
            let decl = u.subrange(i + 1, e);
            let new_items = if starts_with(sel, media_keyword()) {
                seq![ItemSpec::Media(trim(strip_prefix_all(sel, media_keyword())), items_spec(decl))]
            } else if sel.len() > 0 && sel[0] != '@' {
                rules_of(split(sel, ','), decl)
            } else {
                Seq::empty()
            };
            lemma_sheet_shift(p, u, j, Seq::empty(), items + new_items);
        } else {
            lemma_sheet_shift(p, u, i + 1, cur.push(u[i]), items);
        }
    }
}

proof fn lemma_sheet_collect(s: Seq<char>, i: int, k: int, cur: Seq<char>, items: Seq<ItemSpec>)
    requires
        0 <= i <= k <= s.len(),
        forall|m: int| i <= m < k ==> s[m] != '{',
    ensures
        sheet_scan(s, i, cur, items) == sheet_scan(s, k, cur + s.subrange(i, k), items),
    decreases k - i,
{
    if i < k {
        lemma_sheet_collect(s, i + 1, k, cur.push(s[i]), items);
        assert(cur.push(s[i]) + s.subrange(i + 1, k) =~= cur + s.subrange(i, k));
    } else {
        assert(cur + s.subrange(i, k) =~= cur);
    }
}

proof fn lemma_block_end_flat(s: Seq<char>, k: int, e: int)
    requires
        0 <= k <= e < s.len(),
        s[e] == '}',
        forall|m: int| k <= m < e ==> s[m] != '{' && s[m] != '}',
    ensures
        block_end(s, k, 1) == e,
    decreases e - k,
{
    if k < e {
        lemma_block_end_flat(s, k + 1, e);
    }
}

/// A stylesheet that starts with an at-rule other than `@media` (such as
/// `@font-face { ... }` or `@import ...{}`) yields what the rest of it
/// yields: such a block never makes a rule.
pub proof fn law_at_rule_yields_nothing(name: Seq<char>, body: Seq<char>, rest: Seq<char>)
    requires
        trim(name).len() > 0,
        trim(name)[0] == '@',
        !starts_with(trim(name), media_keyword()),
        forall|m: int| 0 <= m < name.len() ==> name[m] != '{' && name[m] != '}' && name[m] != '/',
        forall|m: int| 0 <= m < body.len() ==> body[m] != '{' && body[m] != '}' && body[m] != '/',
    ensures
        items_spec(name + seq!['{'] + body + seq!['}'] + rest) == items_spec(rest),
{
    let p = name + seq!['{'] + body + seq!['}'];
    let s = p + rest;
    let e = Seq::<char>::empty();
    assert forall|m: int| 0 <= m < p.len() implies s[m] != '/' by {
        assert(s[m] == p[m]);
        if m < name.len() {
            assert(p[m] == name[m]);
        } else if name.len() < m < name.len() + 1 + body.len() {
            assert(p[m] == body[m - name.len() - 1]);
        }
    }
    lemma_strip_plain(s, 0, p.len() as int, e);
    assert(e + s.subrange(0, p.len() as int) =~= p);
    lemma_strip_shift(p, rest, 0, p);
    lemma_strip_out(rest, 0, p);
    let u = strip_comments_spec(rest);
    assert(strip_comments_spec(s) == p + u);
    let t = p + u;
    assert forall|m: int| 0 <= m < name.len() implies t[m] != '{' by {
        assert(t[m] == name[m]);
    }
    lemma_sheet_collect(t, 0, name.len() as int, e, Seq::empty());
    assert(e + t.subrange(0, name.len() as int) =~= name);
    let b0: int = name.len() + 1int;
    let be: int = name.len() + 1int + body.len();
    assert(t[name.len() as int] == '{');
    assert(t[be] == '}');
    assert forall|m: int| b0 <= m < be implies t[m] != '{' && t[m] != '}' by {
        assert(t[m] == body[m - b0]);
    }
    lemma_block_end_flat(t, b0, be);
    assert(Seq::<ItemSpec>::empty() + Seq::<ItemSpec>::empty() =~= Seq::<ItemSpec>::empty());
    lemma_sheet_shift(p, u, 0, e, Seq::empty());
}


// ---------------------------------------------------------------------------
// Media types
// ---------------------------------------------------------------------------

/// A media condition that is empty, `all` or `screen` (around it any
/// whitespace) always applies, `print` never does, and whitespace around a
/// condition never changes how it reads.
pub proof fn law_media_types(cond: Seq<char>)
    ensures
        (trim(cond).len() == 0 || trim(cond) == "all"@ || trim(cond) == "screen"@)
            ==> media_query_spec(cond) == QuerySpec::Always,
        trim(cond) == "print"@ ==> media_query_spec(cond) == QuerySpec::Never,
        media_query_spec(trim(cond)) == media_query_spec(cond),
{
    reveal_strlit("all");
    reveal_strlit("screen");
    reveal_strlit("print");
    lemma_trim_idem(cond);
}


/// A media feature written `(name: value)` reads as the pair of its trimmed
/// name and value (the name holding no colon, neither of them parentheses,
/// the name starting and the value ending with a visible character).
pub proof fn law_media_feature(n: Seq<char>, v: Seq<char>)
    requires
        n.len() > 0 && !crate::text::is_ws(n[0]),
        v.len() > 0 && !crate::text::is_ws(v.last()),
        forall|i: int| 0 <= i < n.len() ==> #[trigger] n[i] != ':' && n[i] != '(' && n[i] != ')',
        forall|i: int| 0 <= i < v.len() ==> #[trigger] v[i] != '(' && v[i] != ')',
    ensures
        feature_spec(seq!['('] + n + seq![':'] + v + seq![')']) == FeatureSpec::Pair(trim(n), trim(v)),
{
    let part = seq!['('] + n + seq![':'] + v + seq![')'];
    assert(!crate::text::is_ws('(') && !crate::text::is_ws(')'));
    assert(part[0] == '(' && part.last() == ')');
    crate::text::lemma_trim_id(part);
    let a = part.drop_first();
    assert(crate::text::trim_char_start(a, '(') == a) by {
        assert(a[0] == n[0]);
    }
    assert(crate::text::trim_char_start(part, '(') == a);
    assert(crate::text::trim_char_end(a, '(') == a) by {
        assert(a.last() == ')');
    }
    let b = a.drop_last();
    assert(b =~= n + seq![':'] + v);
    assert(crate::text::trim_char_start(a, ')') == a) by {
        assert(a[0] == n[0]);
    }
    assert(crate::text::trim_char_end(b, ')') == b) by {
        assert(b.last() == v.last());
    }
    assert(a.drop_last() == b);
    assert(crate::text::trim_char_end(a, ')') == b);
    assert(b[0] == n[0] && b.last() == v.last());
    crate::text::lemma_trim_id(b);
    let f = b;
    assert(f[n.len() as int] == ':');
    assert forall|k: int| 0 <= k < n.len() implies f[k] != ':' by {
        assert(f[k] == n[k]);
    }
    crate::text::lemma_until_char(f, 0, ':');
    let c = until_char(f, 0, ':');
    assert(c == n.len()) by {
        if c < n.len() {
            assert(f[c] == n[c]);
        }
    }
    assert(f.subrange(0, c) =~= n);
    assert(f.subrange(c + 1, f.len() as int) =~= v);
}

} // verus!
