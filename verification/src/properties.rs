//! Reading declaration lists (`property: value; ...`): custom properties
//! (`--name: value`) are recorded, `var(...)` references are resolved, and
//! what is left is handed back as property / value pairs to apply.
use vstd::prelude::*;

use crate::style::GridPlacement;
use crate::stylesheet::strip_prefix_all;
use crate::dom::{attr_lookup, attrs_insert, attrs_set, lookup_attr, view_attrs};
use crate::text::{
    chars_of, contains, parse_i16, parse_i16_spec, parse_usize, parse_usize_spec, ends_with, matches_at, occurs_at, lemma_trim_len, lemma_until_char, push_char, push_str, split, split_char,
    starts_with, starts_with_str, string_of_range, to_lowercase, spec_to_lowercase, trim,
    trim_range, trim_str, until_char, until_char_exec, view_strings,
};

verus! {

broadcast use vstd::string::group_string_axioms;

// ---------------------------------------------------------------------------
// var() references
// ---------------------------------------------------------------------------

/// Whether `var(` starts at `i`.
pub open spec fn var_at(s: Seq<char>, i: int) -> bool {
    0 <= i && i + 4 <= s.len() && s[i] == 'v' && s[i + 1] == 'a' && s[i + 2] == 'r' && s[i + 3]
        == '('
}

/// The position of the `)` that closes a parenthesis whose body starts at
/// `k` with `d` parentheses open, or the end.
pub open spec fn paren_end(s: Seq<char>, k: int, d: int) -> int
    decreases s.len() - k,
{
    if k < 0 || k >= s.len() {
        s.len() as int
    } else if s[k] == '(' {
        paren_end(s, k + 1, d + 1)
    } else if s[k] == ')' {
        if d - 1 == 0 {
            k
        } else {
            paren_end(s, k + 1, d - 1)
        }
    } else {
        paren_end(s, k + 1, d)
    }
}

pub proof fn lemma_paren_end(s: Seq<char>, k: int, d: int)
    requires
        0 <= k <= s.len(),
    ensures
        k <= paren_end(s, k, d) <= s.len(),
    decreases s.len() - k,
{
    if k < s.len() {
        if s[k] == '(' {
            lemma_paren_end(s, k + 1, d + 1);
        } else if s[k] == ')' {
            if d - 1 != 0 {
                lemma_paren_end(s, k + 1, d - 1);
            }
        } else {
            lemma_paren_end(s, k + 1, d);
        }
    }
}

/// The variable named in the body of `var(...)`: the text before the first
/// comma, trimmed.
pub open spec fn var_name(content: Seq<char>) -> Seq<char> {
    trim(content.subrange(0, until_char(content, 0, ',')))
}

/// The fallback of `var(name, fallback)`, trimmed, if there is a comma.
pub open spec fn var_fallback(content: Seq<char>) -> Option<Seq<char>> {
    let e = until_char(content, 0, ',');
    if e < content.len() {
        Some(trim(content.subrange(e + 1, content.len() as int)))
    } else {
        None
    }
}

/// `value` with every `var(...)` replaced by the variable's value (itself
/// resolved) or, when the variable is not defined, by the resolved fallback,
/// or by nothing. At most `fuel` variables are looked up along any chain of
/// references; past that a reference resolves to nothing.
pub open spec fn resolve_spec(v: Seq<char>, props: Seq<(Seq<char>, Seq<char>)>, fuel: nat) -> Seq<
    char,
>
    decreases fuel, v.len(), v.len() + 1,
{
    resolve_scan(v, 0, Seq::empty(), props, fuel)
}

pub open spec fn resolve_scan(
    s: Seq<char>,
    i: int,
    out: Seq<char>,
    props: Seq<(Seq<char>, Seq<char>)>,
    fuel: nat,
) -> Seq<char>
    decreases fuel, s.len(), s.len() - i,
{
    if i < 0 || i >= s.len() {
        out
    } else if var_at(s, i) {
        proof {
            lemma_paren_end(s, i + 4, 1);
        }
        let e = paren_end(s, i + 4, 1);
        let content = s.subrange(i + 4, e);
        let j = if e < s.len() {
            e + 1
        } else {
            e
        };
        let piece = match attr_lookup(props, var_name(content)) {
            Some(val) => if fuel > 0 {
                resolve_spec(val, props, (fuel - 1) as nat)
            } else {
                Seq::empty()
            },
            None => match var_fallback(content) {
                Some(fb) => {
                    proof {
                        lemma_until_char(content, 0, ',');
                        lemma_trim_len(
                            content.subrange(
                                until_char(content, 0, ',') + 1,
                                content.len() as int,
                            ),
                        );
                    }
                    resolve_spec(fb, props, fuel)
                },
                None => Seq::empty(),
            },
        };
        resolve_scan(s, j, out + piece, props, fuel)
    } else {
        resolve_scan(s, i + 1, out.push(s[i]), props, fuel)
    }
}

proof fn lemma_scan_plain(
    s: Seq<char>,
    i: int,
    out: Seq<char>,
    props: Seq<(Seq<char>, Seq<char>)>,
    fuel: nat,
)
    requires
        0 <= i <= s.len(),
        forall|j: int| i <= j < s.len() ==> !var_at(s, j),
    ensures
        resolve_scan(s, i, out, props, fuel) == out + s.subrange(i, s.len() as int),
    decreases s.len() - i,
{
    if i < s.len() {
        lemma_scan_plain(s, i + 1, out.push(s[i]), props, fuel);
        assert(out.push(s[i]) + s.subrange(i + 1, s.len() as int) =~= out + s.subrange(
            i,
            s.len() as int,
        ));
    } else {
        assert(out + s.subrange(i, s.len() as int) =~= out);
    }
}

/// A value without `var(` resolves to itself.
pub proof fn law_resolve_plain(v: Seq<char>, props: Seq<(Seq<char>, Seq<char>)>, fuel: nat)
    requires
        !contains(v, "var("@),
    ensures
        resolve_spec(v, props, fuel) == v,
{
    reveal_strlit("var(");
    crate::text::lemma_find_from_bounds(v, "var("@, 0);
    assert forall|j: int| 0 <= j < v.len() implies !var_at(v, j) by {
        if var_at(v, j) {
            assert(v.subrange(j, j + 4) =~= "var("@);
            assert(occurs_at(v, "var("@, j));
        }
    }
    lemma_scan_plain(v, 0, Seq::empty(), props, fuel);
    assert(Seq::<char>::empty() + v.subrange(0, v.len() as int) =~= v);
}

proof fn lemma_paren_end_plain(s: Seq<char>, k: int, e: int)
    requires
        0 <= k <= e < s.len(),
        s[e] == ')',
        forall|j: int| k <= j < e ==> s[j] != '(' && s[j] != ')',
    ensures
        paren_end(s, k, 1) == e,
    decreases e - k,
{
    if k < e {
        lemma_paren_end_plain(s, k + 1, e);
    }
}

/// A reference to a defined variable, written `var(name)`, resolves to the
/// variable's value (here one without references of its own).
pub proof fn law_var_reference(
    name: Seq<char>,
    val: Seq<char>,
    props: Seq<(Seq<char>, Seq<char>)>,
    fuel: nat,
)
    requires
        attr_lookup(props, name) == Some(val),
        !contains(val, "var("@),
        fuel > 0,
        trim(name) == name,
        forall|j: int| 0 <= j < name.len() ==> name[j] != ',' && name[j] != '(' && name[j] != ')',
    ensures
        resolve_spec("var("@ + name + ")"@, props, fuel) == val,
{
    reveal_strlit("var(");
    reveal_strlit(")");
    let s = "var("@ + name + ")"@;
    let e: int = name.len() as int + 4;
    assert(s[e] == ')');
    assert forall|j: int| 4 <= j < e implies s[j] != '(' && s[j] != ')' by {
        assert(s[j] == name[j - 4]);
    }
    lemma_paren_end_plain(s, 4, e);
    assert(var_at(s, 0));
    let content = s.subrange(4, e);
    assert(content =~= name);
    lemma_until_char(content, 0, ',');
    assert(until_char(content, 0, ',') == content.len());
    assert(content.subrange(0, content.len() as int) =~= content);
    assert(var_name(content) == name);
    law_resolve_plain(val, props, (fuel - 1) as nat);
    assert(resolve_scan(s, 0, Seq::empty(), props, fuel) == resolve_scan(
        s,
        e + 1,
        Seq::empty() + val,
        props,
        fuel,
    ));
    assert(Seq::<char>::empty() + val =~= val);
}

/// A reference to an undefined variable with a fallback, written
/// `var(name,fallback)`, resolves to the fallback (here one without
/// references of its own).
pub proof fn law_var_fallback(
    name: Seq<char>,
    fb: Seq<char>,
    props: Seq<(Seq<char>, Seq<char>)>,
    fuel: nat,
)
    requires
        attr_lookup(props, name) is None,
        !contains(fb, "var("@),
        trim(name) == name,
        trim(fb) == fb,
        forall|j: int| 0 <= j < name.len() ==> name[j] != ',' && name[j] != '(' && name[j] != ')',
        forall|j: int| 0 <= j < fb.len() ==> fb[j] != '(' && fb[j] != ')',
    ensures
        resolve_spec("var("@ + name + ","@ + fb + ")"@, props, fuel) == fb,
{
    reveal_strlit("var(");
    reveal_strlit(")");
    reveal_strlit(",");
    let s = "var("@ + name + ","@ + fb + ")"@;
    let e: int = name.len() as int + fb.len() as int + 5;
    assert(s[e] == ')');
    assert forall|j: int| 4 <= j < e implies s[j] != '(' && s[j] != ')' by {
        if j < name.len() + 4 {
            assert(s[j] == name[j - 4]);
        } else if j > name.len() + 4 {
            assert(s[j] == fb[j - name.len() - 5]);
        }
    }
    lemma_paren_end_plain(s, 4, e);
    assert(var_at(s, 0));
    let content = s.subrange(4, e);
    assert(content =~= name + ","@ + fb);
    lemma_until_char(content, 0, ',');
    assert forall|j: int| 0 <= j < name.len() implies content[j] != ',' by {
        assert(content[j] == name[j]);
    }
    assert(content[name.len() as int] == ',');
    assert(until_char(content, 0, ',') == name.len());
    assert(content.subrange(0, name.len() as int) =~= name);
    assert(content.subrange(name.len() as int + 1, content.len() as int) =~= fb);
    assert(var_name(content) == name);
    assert(var_fallback(content) == Some(fb));
    law_resolve_plain(fb, props, fuel);
    assert(s.len() == e + 1);
    assert(resolve_scan(s, 0, Seq::empty(), props, fuel) == resolve_scan(
        s,
        e + 1,
        Seq::empty() + fb,
        props,
        fuel,
    ));
    assert(Seq::<char>::empty() + fb =~= fb);
}

fn paren_end_exec(v: &Vec<char>, k: usize) -> (j: usize)
    requires
        1 <= k <= v.len(),
    ensures
        j == paren_end(v@, k as int, 1),
        k <= j <= v.len(),
{
    let mut j = k;
    let mut d: usize = 1;
    while j < v.len()
        invariant
            1 <= k <= j <= v.len(),
            1 <= d <= j - k + 1,
            paren_end(v@, j as int, d as int) == paren_end(v@, k as int, 1),
        decreases v.len() - j,
    {
        if v[j] == '(' {
            d = d + 1;
        } else if v[j] == ')' {
            if d == 1 {
                return j;
            }
            d = d - 1;
        }
        j = j + 1;
    }
    j
}

fn resolve_with(value: &str, props: &Vec<(String, String)>, fuel: usize) -> (r: String)
    ensures
        r@ == resolve_spec(value@, view_attrs(props@), fuel as nat),
    decreases fuel, value@.len(),
{
    let ghost pv = view_attrs(props@);
    let v = chars_of(value);
    let mut out = String::new();
    let mut i: usize = 0;
    while i < v.len()
        invariant
            i <= v.len(),
            v@ == value@,
            pv == view_attrs(props@),
            resolve_scan(v@, i as int, out@, pv, fuel as nat) == resolve_spec(
                value@,
                pv,
                fuel as nat,
            ),
        decreases v.len() - i,
    {
        if v.len() - i >= 4 && v[i] == 'v' && v[i + 1] == 'a' && v[i + 2] == 'r' && v[i + 3]
            == '(' {
            let e = paren_end_exec(&v, i + 4);
            let cv = chars_of(string_of_range(&v, i + 4, e).as_str());
            let ghost content = v@.subrange(i + 4, e as int);
            let comma = until_char_exec(&cv, 0, ',');
            let (na, nb) = trim_range(&cv, 0, comma);
            let name = string_of_range(&cv, na, nb);
            proof {
                lemma_until_char(content, 0, ',');
            }
            match lookup_attr(props, name.as_str()) {
                Some(val) => {
                    if fuel > 0 {
                        let piece = resolve_with(val, props, fuel - 1);
                        push_str(&mut out, piece.as_str());
                    }
                },
                None => {
                    if comma < cv.len() {
                        let (fa, fb) = trim_range(&cv, comma + 1, cv.len());
                        let fallback = string_of_range(&cv, fa, fb);
                        proof {
                            lemma_trim_len(content.subrange(comma + 1, content.len() as int));
                        }
                        let piece = resolve_with(fallback.as_str(), props, fuel);
                        push_str(&mut out, piece.as_str());
                    }
                },
            }
            i = if e < v.len() {
                e + 1
            } else {
                e
            };
        } else {
            push_char(&mut out, v[i]);
            i = i + 1;
        }
    }
    out
}

/// Resolves `var(--name)` and `var(--name, fallback)` references against
/// the custom properties in force. A chain of references looks up at most
/// as many variables as there are, so a variable that refers to itself,
/// directly or not, ends in an empty value.
pub fn resolve_vars(value: &str, custom_props: &Vec<(String, String)>) -> (r: String)
    ensures
        r@ == resolve_spec(value@, view_attrs(custom_props@), custom_props@.len() as nat),
{
    resolve_with(value, custom_props, custom_props.len())
}


// ---------------------------------------------------------------------------
// Declaration lists
// ---------------------------------------------------------------------------

/// `str::trim_end_matches` with a non-empty string pattern: every trailing
/// copy of `p` removed.
pub open spec fn strip_suffix_all(s: Seq<char>, p: Seq<char>) -> Seq<char>
    decreases s.len(),
{
    if p.len() > 0 && ends_with(s, p) {
        strip_suffix_all(s.take(s.len() - p.len()), p)
    } else {
        s
    }
}

/// One declaration: blank ones and ones without `:` are skipped; a custom
/// property (`--name`) is recorded; any other is handed back with its value
/// resolved against the custom properties recorded so far. The property
/// name is trimmed and lower-cased, the value trimmed and stripped of
/// trailing `!important`.
pub open spec fn decl_step(piece: Seq<char>, props: Seq<(Seq<char>, Seq<char>)>) -> (
    Option<(Seq<char>, Seq<char>)>,
    Seq<(Seq<char>, Seq<char>)>,
) {
    let d = trim(piece);
    let colon = until_char(d, 0, ':');
    if d.len() == 0 || colon >= d.len() {
        (None, props)
    } else {
        let property = spec_to_lowercase(trim(d.subrange(0, colon)));
        let value = trim(
            strip_suffix_all(trim(d.subrange(colon + 1, d.len() as int)), "!important"@),
        );
        if starts_with(property, "--"@) {
            (None, attrs_insert(props, property, value))
        } else {
            (Some((property, resolve_spec(value, props, props.len()))), props)
        }
    }
}

/// The declarations of a `;`-separated list, in order, and the custom
/// properties in force afterwards.
pub open spec fn decls_spec(pieces: Seq<Seq<char>>, props: Seq<(Seq<char>, Seq<char>)>) -> (
    Seq<(Seq<char>, Seq<char>)>,
    Seq<(Seq<char>, Seq<char>)>,
)
    decreases pieces.len(),
{
    if pieces.len() == 0 {
        (Seq::empty(), props)
    } else {
        let (out, p1) = decls_spec(pieces.drop_last(), props);
        let (o, p2) = decl_step(pieces.last(), p1);
        (
            match o {
                Some(x) => out.push(x),
                None => out,
            },
            p2,
        )
    }
}

fn strip_suffix_range(v: &Vec<char>, lo: usize, hi: usize, p: &Vec<char>) -> (r: usize)
    requires
        lo <= hi <= v.len(),
    ensures
        lo <= r <= hi,
        v@.subrange(lo as int, r as int) == strip_suffix_all(v@.subrange(lo as int, hi as int), p@),
{
    let mut h = hi;
    while p.len() > 0 && h - lo >= p.len() && matches_at(v, p, h - p.len())
        invariant
            lo <= h <= hi <= v.len(),
            strip_suffix_all(v@.subrange(lo as int, h as int), p@) == strip_suffix_all(
                v@.subrange(lo as int, hi as int),
                p@,
            ),
        decreases h,
    {
        proof {
            let t = v@.subrange(lo as int, h as int);
            assert(t.skip(t.len() - p@.len()) =~= v@.subrange(h - p@.len(), h as int));
            assert(t.take(t.len() - p@.len()) =~= v@.subrange(lo as int, h - p@.len()));
        }
        h = h - p.len();
    }
    proof {
        let t = v@.subrange(lo as int, h as int);
        if p@.len() > 0 && ends_with(t, p@) {
            assert(t.skip(t.len() - p@.len()) =~= v@.subrange(h - p@.len(), h as int));
        }
    }
    h
}

/// Reads a `;`-separated declaration list. Custom properties are recorded
/// in `custom_props` (a later one replaces an earlier one of the same
/// name); every other declaration comes back as a property / value pair,
/// in order, its `var()` references resolved.
pub fn parse_declarations(style_str: &str, custom_props: &mut Vec<(String, String)>) -> (r: Vec<
    (String, String),
>)
    ensures
        (view_attrs(r@), view_attrs(final(custom_props)@)) == decls_spec(
            split(style_str@, ';'),
            view_attrs(old(custom_props)@),
        ),
{
    let pieces = split_char(style_str, ';');
    let ghost pv = view_strings(pieces@);
    let imp = chars_of("!important");
    let mut out: Vec<(String, String)> = Vec::new();
    let mut k: usize = 0;
    proof {
        assert(pv.take(0) =~= Seq::<Seq<char>>::empty());
        assert(view_attrs(out@) =~= Seq::<(Seq<char>, Seq<char>)>::empty());
    }
    while k < pieces.len()
        invariant
            k <= pieces@.len(),
            pv == view_strings(pieces@),
            pv == split(style_str@, ';'),
            imp@ == "!important"@,
            (view_attrs(out@), view_attrs(custom_props@)) == decls_spec(
                pv.take(k as int),
                view_attrs(old(custom_props)@),
            ),
        decreases pieces.len() - k,
    {
        proof {
            assert(pv.take(k + 1).drop_last() =~= pv.take(k as int));
            assert(pv.take(k + 1).last() == pieces@[k as int]@);
        }
        let d = trim_str(pieces[k].as_str());
        let dv = chars_of(d.as_str());
        let colon = until_char_exec(&dv, 0, ':');
        if dv.len() > 0 && colon < dv.len() {
            let (pa, pb) = trim_range(&dv, 0, colon);
            let property = to_lowercase(string_of_range(&dv, pa, pb).as_str());
            let (ra, rb) = trim_range(&dv, colon + 1, dv.len());
            let rb2 = strip_suffix_range(&dv, ra, rb, &imp);
            let (va, vb) = trim_range(&dv, ra, rb2);
            let value = string_of_range(&dv, va, vb);
            if starts_with_str(property.as_str(), "--") {
                attrs_set(custom_props, property.as_str(), value.as_str());
            } else {
                let resolved = resolve_vars(value.as_str(), custom_props);
                let ghost prev = out@;
                out.push((property, resolved));
                proof {
                    assert(view_attrs(out@) =~= view_attrs(prev).push((property@, resolved@)));
                }
            }
        }
        k = k + 1;
    }
    proof {
        assert(pv.take(k as int) =~= pv);
    }
    out
}


// ---------------------------------------------------------------------------
// Grid values
// ---------------------------------------------------------------------------

pub open spec fn repeat_keyword() -> Seq<char> {
    seq!['r', 'e', 'p', 'e', 'a', 't']
}

/// Appending `n - i` more copies of `t`, each after a space unless it is the
/// very first thing in `r`.
pub open spec fn repeat_track(r: Seq<char>, t: Seq<char>, i: int, n: int) -> Seq<char>
    decreases n - i,
{
    if i >= n {
        r
    } else {
        let r1 = if i > 0 || r.len() > 0 {
            r.push(' ')
        } else {
            r
        };
        repeat_track(r1 + t, t, i + 1, n)
    }
}

/// The text left in the buffer at the end, after a space if anything came
/// before it.
pub open spec fn rep_finish(result: Seq<char>, buf: Seq<char>) -> Seq<char> {
    if buf.len() > 0 {
        (if result.len() > 0 {
            result.push(' ')
        } else {
            result
        }) + trim(buf)
    } else {
        result
    }
}

/// Expanding `repeat(n, track)` from position `i`, with `result` written so
/// far and `buf` the text read since the last expansion.
pub open spec fn rep_scan(s: Seq<char>, i: int, result: Seq<char>, buf: Seq<char>) -> Seq<char>
    decreases s.len() - i,
{
    if i < 0 || i >= s.len() {
        rep_finish(result, buf)
    } else if s[i] == '(' && buf.len() >= 6 && buf.skip(buf.len() - 6) == repeat_keyword() {
        let r1 = result + trim(buf.take(buf.len() - 6));
        let ce = until_char(s, i + 1, ',');
        let k = if ce < s.len() {
            ce + 1
        } else {
            ce
        };
        let count = match parse_usize_spec(trim(s.subrange(i + 1, ce))) {
            Some(n) => n as int,
            None => 1,
        };
        let te = paren_end(s, k, 1);
        let track = trim(s.subrange(k, te));
        let j = if te < s.len() {
            te + 1
        } else {
            te
        };
        if i < j <= s.len() {
            rep_scan(s, j, repeat_track(r1, track, 0, count), Seq::empty())
        } else {
            rep_finish(result, buf)
        }
    } else {
        rep_scan(s, i + 1, result, buf.push(s[i]))
    }
}

/// `repeat(n, track)` in a grid template replaced by `n` copies of `track`,
/// separated by spaces (a count that does not parse counts as one).
pub open spec fn expand_repeats_spec(s: Seq<char>) -> Seq<char> {
    rep_scan(s, 0, Seq::empty(), Seq::empty())
}

fn append_track(result: &mut String, track: &str, count: usize)
    ensures
        final(result)@ == repeat_track(old(result)@, track@, 0, count as int),
{
    let ghost r0 = result@;
    let mut i: usize = 0;
    while i < count
        invariant
            i <= count,
            repeat_track(r0, track@, 0, count as int) == repeat_track(
                result@,
                track@,
                i as int,
                count as int,
            ),
        decreases count - i,
    {
        if i > 0 || !result.as_str().is_empty() {
            push_char(result, ' ');
        }
        push_str(result, track);
        i = i + 1;
    }
}

/// Expands `repeat()` in a grid template.
pub fn expand_repeats(value: &str) -> (r: String)
    ensures
        r@ == expand_repeats_spec(value@),
{
    let v = chars_of(value);
    let mut result = String::new();
    let mut buf: Vec<char> = Vec::new();
    let mut i: usize = 0;
    while i < v.len()
        invariant
            i <= v.len(),
            v@ == value@,
            rep_scan(v@, i as int, result@, buf@) == expand_repeats_spec(value@),
        decreases v.len() - i,
    {
        let c = v[i];
        let n = buf.len();
        let is_rep = c == '(' && n >= 6 && buf[n - 6] == 'r' && buf[n - 5] == 'e' && buf[n - 4]
            == 'p' && buf[n - 3] == 'e' && buf[n - 2] == 'a' && buf[n - 1] == 't';
        proof {
            if n >= 6 {
                let tail = buf@.skip(n - 6);
                if is_rep {
                    assert(tail =~= repeat_keyword());
                } else if c == '(' && tail == repeat_keyword() {
                    assert(tail[0] == buf@[n - 6]);
                    assert(tail[1] == buf@[n - 5]);
                    assert(tail[2] == buf@[n - 4]);
                    assert(tail[3] == buf@[n - 3]);
                    assert(tail[4] == buf@[n - 2]);
                    assert(tail[5] == buf@[n - 1]);
                }
            }
        }
        if is_rep {
            let (ba, bb) = trim_range(&buf, 0, n - 6);
            proof {
                assert(buf@.subrange(0, n - 6) =~= buf@.take(n - 6));
            }
            push_str(&mut result, string_of_range(&buf, ba, bb).as_str());
            let ce = until_char_exec(&v, i + 1, ',');
            let k = if ce < v.len() {
                ce + 1
            } else {
                ce
            };
            let (ca, cb) = trim_range(&v, i + 1, ce);
            let count = match parse_usize(string_of_range(&v, ca, cb).as_str()) {
                Some(x) => x,
                None => 1,
            };
            let te = if k >= 1 {
                paren_end_exec(&v, k)
            } else {
                k
            };
            let (ta, tb) = trim_range(&v, k, te);
            let track = string_of_range(&v, ta, tb);
            append_track(&mut result, track.as_str(), count);
            buf = Vec::new();
            i = if te < v.len() {
                te + 1
            } else {
                te
            };
        } else {
            buf.push(c);
            i = i + 1;
        }
    }
    if buf.len() > 0 {
        if !result.as_str().is_empty() {
            push_char(&mut result, ' ');
        }
        let (ba, bb) = trim_range(&buf, 0, buf.len());
        proof {
            assert(buf@.subrange(0, buf@.len() as int) =~= buf@);
        }
        push_str(&mut result, string_of_range(&buf, ba, bb).as_str());
    }
    result
}

/// `grid-column` / `grid-row` as lines `(start, end)`, before any check that
/// `end` fits: `span n` is `(0, n)`, `a / b` is `(a, b)`, `a / span n` is
/// `(a, a + n)`, a single line `a` is `(a, a + 1)`; `None` where a number
/// does not parse.
pub open spec fn grid_lines_spec(value: Seq<char>) -> Option<(int, int)> {
    let v = trim(value);
    let span = seq!['s', 'p', 'a', 'n'];
    if starts_with(v, span) {
        match parse_i16_spec(trim(strip_prefix_all(v, span))) {
            Some(n) => Some((0, n)),
            None => None,
        }
    } else {
        let sl = until_char(v, 0, '/');
        if sl < v.len() {
            let e = trim(v.subrange(sl + 1, v.len() as int));
            match parse_i16_spec(trim(v.subrange(0, sl))) {
                Some(a) => if starts_with(e, span) {
                    match parse_i16_spec(trim(strip_prefix_all(e, span))) {
                        Some(n) => Some((a, a + n)),
                        None => None,
                    }
                } else {
                    match parse_i16_spec(e) {
                        Some(b) => Some((a, b)),
                        None => None,
                    }
                },
                None => None,
            }
        } else {
            match parse_i16_spec(v) {
                Some(a) => Some((a, a + 1)),
                None => None,
            }
        }
    }
}

/// Whether computing the end line overflows `i16`.
pub open spec fn grid_overflow_spec(value: Seq<char>) -> bool {
    match grid_lines_spec(value) {
        Some((_, e)) => !(-32768 <= e <= 32767),
        None => false,
    }
}

/// The part of `v[lo..hi]` left after removing leading copies of `span`,
/// trimmed, as a string.
fn after_span(v: &Vec<char>, lo: usize, hi: usize) -> (r: String)
    requires
        lo <= hi <= v.len(),
    ensures
        r@ == trim(strip_prefix_all(v@.subrange(lo as int, hi as int), seq!['s', 'p', 'a', 'n'])),
{
    let ghost span = seq!['s', 'p', 'a', 'n'];
    let mut i = lo;
    proof {
        assert(v@.subrange(lo as int, hi as int) =~= v@.subrange(i as int, hi as int));
    }
    while hi - i >= 4 && v[i] == 's' && v[i + 1] == 'p' && v[i + 2] == 'a' && v[i + 3] == 'n'
        invariant
            lo <= i <= hi <= v.len(),
            span == seq!['s', 'p', 'a', 'n'],
            strip_prefix_all(v@.subrange(i as int, hi as int), span) == strip_prefix_all(
                v@.subrange(lo as int, hi as int),
                span,
            ),
        decreases hi - i,
    {
        proof {
            let t = v@.subrange(i as int, hi as int);
            assert(t[0] == v@[i as int] && t[1] == v@[i + 1] && t[2] == v@[i + 2] && t[3] == v@[i
                + 3]);
            assert(t.take(4) =~= seq!['s', 'p', 'a', 'n']);
            assert(t.skip(4) =~= v@.subrange(i + 4, hi as int));
        }
        i = i + 4;
    }
    proof {
        let t = v@.subrange(i as int, hi as int);
        if starts_with(t, span) {
            assert(t.take(4)[0] == t[0] && t.take(4)[1] == t[1] && t.take(4)[2] == t[2]
                && t.take(4)[3] == t[3]);
            assert(t[0] == v@[i as int] && t[1] == v@[i + 1] && t[2] == v@[i + 2] && t[3]
                == v@[i + 3]);
        }
    }
    let (a, b) = trim_range(v, i, hi);
    string_of_range(v, a, b)
}

/// Whether reading a grid placement would overflow the end line.
pub fn grid_placement_overflows(value: &str) -> (b: bool)
    ensures
        b == grid_overflow_spec(value@),
{
    match grid_lines(value) {
        Some((_, e)) => e < -32768 || e > 32767,
        None => false,
    }
}

fn grid_lines(value: &str) -> (r: Option<(i32, i32)>)
    ensures
        match r {
            Some((a, b)) => grid_lines_spec(value@) == Some((a as int, b as int)),
            None => grid_lines_spec(value@) is None,
        },
{
    let t = trim_str(value);
    let v = chars_of(t.as_str());
    let ghost span = seq!['s', 'p', 'a', 'n'];
    let starts_span = v.len() >= 4 && v[0] == 's' && v[1] == 'p' && v[2] == 'a' && v[3] == 'n';
    proof {
        if v@.len() >= 4 {
            if starts_span {
                assert(v@.take(4) =~= span);
            } else if starts_with(v@, span) {
                assert(v@.take(4)[0] == v@[0] && v@.take(4)[1] == v@[1] && v@.take(4)[2] == v@[2]
                    && v@.take(4)[3] == v@[3]);
            }
        }
        assert(v@.subrange(0, v@.len() as int) =~= v@);
    }
    if starts_span {
        let rest = after_span(&v, 0, v.len());
        match parse_i16(rest.as_str()) {
            Some(n) => Some((0, n as i32)),
            None => None,
        }
    } else {
        let sl = until_char_exec(&v, 0, '/');
        if sl < v.len() {
            let (ea, eb) = trim_range(&v, sl + 1, v.len());
            let (sa, sb) = trim_range(&v, 0, sl);
            let ghost e = v@.subrange(ea as int, eb as int);
            match parse_i16(string_of_range(&v, sa, sb).as_str()) {
                Some(a) => {
                    let e_span = eb - ea >= 4 && v[ea] == 's' && v[ea + 1] == 'p' && v[ea + 2]
                        == 'a' && v[ea + 3] == 'n';
                    proof {
                        if e.len() >= 4 {
                            if e_span {
                                assert(e.take(4) =~= span);
                            } else if starts_with(e, span) {
                                assert(e.take(4)[0] == e[0] && e.take(4)[1] == e[1] && e.take(4)[2]
                                    == e[2] && e.take(4)[3] == e[3]);
                            }
                        }
                    }
                    if e_span {
                        let rest = after_span(&v, ea, eb);
                        match parse_i16(rest.as_str()) {
                            Some(n) => Some((a as i32, a as i32 + n as i32)),
                            None => None,
                        }
                    } else {
                        match parse_i16(string_of_range(&v, ea, eb).as_str()) {
                            Some(b) => Some((a as i32, b as i32)),
                            None => None,
                        }
                    }
                },
                None => None,
            }
        } else {
            match parse_i16(t.as_str()) {
                Some(a) => Some((a as i32, a as i32 + 1)),
                None => None,
            }
        }
    }
}

/// Reads `grid-column` / `grid-row`: `span n`, `a / b`, `a / span n` or a
/// single line `a`.
pub fn parse_grid_placement(value: &str) -> (r: Option<GridPlacement>)
    requires
        !grid_overflow_spec(value@),
    ensures
        match r {
            Some(g) => grid_lines_spec(value@) == Some((g.start as int, g.end as int)),
            None => grid_lines_spec(value@) is None,
        },
{
    match grid_lines(value) {
        Some((a, b)) => Some(GridPlacement { start: a as i16, end: b as i16 }),
        None => None,
    }
}

} // verus!
