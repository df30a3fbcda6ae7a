//! Character-level text primitives shared by the parsers: whitespace
//! classification, trimming, searching, splitting and string building.
//! Every operation is stated over `Seq<char>`, the view of `str` and `String`.
use vstd::prelude::*;

verus! {

broadcast use vstd::string::group_string_axioms;

// ---------------------------------------------------------------------------
// Character classes
// ---------------------------------------------------------------------------

/// The Unicode `White_Space` property, which `char::is_whitespace`,
/// `str::trim` and `str::split_whitespace` use.
pub open spec fn is_ws(c: char) -> bool {
    let u = c as u32;
    (0x9 <= u && u <= 0xd) || u == 0x20 || u == 0x85 || u == 0xa0 || u == 0x1680
        || (0x2000 <= u && u <= 0x200a) || u == 0x2028 || u == 0x2029 || u == 0x202f
        || u == 0x205f || u == 0x3000
}

pub open spec fn is_digit(c: char) -> bool {
    '0' <= c && c <= '9'
}

pub open spec fn is_ascii_alpha(c: char) -> bool {
    ('a' <= c && c <= 'z') || ('A' <= c && c <= 'Z')
}

/// Whitespace test with the same answer as `char::is_whitespace`.
pub fn is_whitespace(c: char) -> (b: bool)
    ensures
        b == is_ws(c),
{
    let u = c as u32;
    (0x9 <= u && u <= 0xd) || u == 0x20 || u == 0x85 || u == 0xa0 || u == 0x1680 || (0x2000
        <= u && u <= 0x200a) || u == 0x2028 || u == 0x2029 || u == 0x202f || u == 0x205f || u
        == 0x3000
}

pub fn is_ascii_digit(c: char) -> (b: bool)
    ensures
        b == is_digit(c),
{
    '0' <= c && c <= '9'
}

pub fn is_ascii_alphabetic(c: char) -> (b: bool)
    ensures
        b == is_ascii_alpha(c),
{
    ('a' <= c && c <= 'z') || ('A' <= c && c <= 'Z')
}

/// What `char::is_alphanumeric` answers for a character (Unicode
/// `Alphabetic` or `Numeric`).
pub uninterp spec fn spec_is_alphanumeric(c: char) -> bool;

/// Calls `char::is_alphanumeric`. Its contract names the answer; for ASCII
/// characters the std documentation makes it exactly the letters and digits.
#[verifier::external_body]
pub(crate) fn is_alphanumeric(c: char) -> (b: bool)
    ensures
        b == spec_is_alphanumeric(c),
        (c as u32) < 128 ==> (b <==> (is_ascii_alpha(c) || is_digit(c))),
{
    c.is_alphanumeric()
}

/// What `str::to_lowercase` returns for a string.
pub uninterp spec fn spec_to_lowercase(s: Seq<char>) -> Seq<char>;

/// An ASCII letter in lower case; any other character as it is.
pub open spec fn ascii_lower(c: char) -> char {
    if 'A' <= c && c <= 'Z' {
        ((c as u32) + 32) as char
    } else {
        c
    }
}

/// Calls `str::to_lowercase`. Its contract names the result; on ASCII text
/// the std documentation makes it the ASCII letters in lower case, every
/// other character unchanged (Unicode case mapping in general is not
/// stated).
#[verifier::external_body]
pub(crate) fn to_lowercase(s: &str) -> (r: String)
    ensures
        r@ == spec_to_lowercase(s@),
        (forall|i: int| 0 <= i < s@.len() ==> (#[trigger] s@[i] as u32) < 128) ==> r@ == s@.map_values(
            |c: char| ascii_lower(c),
        ),
{
    s.to_lowercase()
}

// ---------------------------------------------------------------------------
// Trimming
// ---------------------------------------------------------------------------

pub open spec fn trim_start(s: Seq<char>) -> Seq<char>
    decreases s.len(),
{
    if s.len() > 0 && is_ws(s[0]) {
        trim_start(s.drop_first())
    } else {
        s
    }
}

pub open spec fn trim_end(s: Seq<char>) -> Seq<char>
    decreases s.len(),
{
    if s.len() > 0 && is_ws(s.last()) {
        trim_end(s.drop_last())
    } else {
        s
    }
}

/// `str::trim`: leading and trailing whitespace removed.
pub open spec fn trim(s: Seq<char>) -> Seq<char> {
    trim_end(trim_start(s))
}

/// Strips every leading and trailing occurrence of `c` (`str::trim_matches`).
pub open spec fn trim_char_start(s: Seq<char>, c: char) -> Seq<char>
    decreases s.len(),
{
    if s.len() > 0 && s[0] == c {
        trim_char_start(s.drop_first(), c)
    } else {
        s
    }
}

pub open spec fn trim_char_end(s: Seq<char>, c: char) -> Seq<char>
    decreases s.len(),
{
    if s.len() > 0 && s.last() == c {
        trim_char_end(s.drop_last(), c)
    } else {
        s
    }
}

pub open spec fn trim_matches(s: Seq<char>, c: char) -> Seq<char> {
    trim_char_end(trim_char_start(s, c), c)
}

pub proof fn lemma_trim_end_sub(s: Seq<char>, lo: int, j: int)
    requires
        0 <= lo < j <= s.len(),
        is_ws(s[j - 1]),
    ensures
        trim_end(s.subrange(lo, j)) == trim_end(s.subrange(lo, j - 1)),
{
    assert(s.subrange(lo, j).drop_last() =~= s.subrange(lo, j - 1));
}

pub proof fn lemma_trim_char_end_sub(s: Seq<char>, c: char, lo: int, j: int)
    requires
        0 <= lo < j <= s.len(),
        s[j - 1] == c,
    ensures
        trim_char_end(s.subrange(lo, j), c) == trim_char_end(s.subrange(lo, j - 1), c),
{
    assert(s.subrange(lo, j).drop_last() =~= s.subrange(lo, j - 1));
}

/// The bounds of `trim(v[lo..hi])` inside `v`.
pub fn trim_range(v: &Vec<char>, lo: usize, hi: usize) -> (r: (usize, usize))
    requires
        lo <= hi <= v.len(),
    ensures
        lo <= r.0 <= r.1 <= hi,
        v@.subrange(r.0 as int, r.1 as int) == trim(v@.subrange(lo as int, hi as int)),
{
    let mut i = lo;
    while i < hi && is_whitespace(v[i])
        invariant
            lo <= i <= hi <= v.len(),
            trim_start(v@.subrange(lo as int, hi as int)) == trim_start(
                v@.subrange(i as int, hi as int),
            ),
        decreases hi - i,
    {
        proof {
            let t = v@.subrange(i as int, hi as int);
            assert(t.drop_first() =~= v@.subrange(i + 1, hi as int));
        }
        i = i + 1;
    }
    proof {
        let t = v@.subrange(i as int, hi as int);
        assert(trim_start(t) == t);
    }
    let mut j = hi;
    while j > i && is_whitespace(v[j - 1])
        invariant
            lo <= i <= j <= hi <= v.len(),
            trim_end(v@.subrange(i as int, hi as int)) == trim_end(v@.subrange(i as int, j as int)),
        decreases j - i,
    {
        proof {
            lemma_trim_end_sub(v@, i as int, j as int);
        }
        j = j - 1;
    }
    (i, j)
}

/// The bounds of `trim_matches(v[lo..hi], c)` inside `v`.
pub fn trim_char_range(v: &Vec<char>, lo: usize, hi: usize, c: char) -> (r: (usize, usize))
    requires
        lo <= hi <= v.len(),
    ensures
        lo <= r.0 <= r.1 <= hi,
        v@.subrange(r.0 as int, r.1 as int) == trim_matches(v@.subrange(lo as int, hi as int), c),
{
    let mut i = lo;
    while i < hi && v[i] == c
        invariant
            lo <= i <= hi <= v.len(),
            trim_char_start(v@.subrange(lo as int, hi as int), c) == trim_char_start(
                v@.subrange(i as int, hi as int),
                c,
            ),
        decreases hi - i,
    {
        proof {
            let t = v@.subrange(i as int, hi as int);
            assert(t.drop_first() =~= v@.subrange(i + 1, hi as int));
        }
        i = i + 1;
    }
    let mut j = hi;
    while j > i && v[j - 1] == c
        invariant
            lo <= i <= j <= hi <= v.len(),
            trim_char_end(v@.subrange(i as int, hi as int), c) == trim_char_end(
                v@.subrange(i as int, j as int),
                c,
            ),
        decreases j - i,
    {
        proof {
            lemma_trim_char_end_sub(v@, c, i as int, j as int);
        }
        j = j - 1;
    }
    (i, j)
}

// ---------------------------------------------------------------------------
// Searching
// ---------------------------------------------------------------------------

pub open spec fn occurs_at(h: Seq<char>, n: Seq<char>, i: int) -> bool {
    0 <= i && i + n.len() <= h.len() && h.subrange(i, i + n.len()) == n
}

/// First position at or after `i` where `n` occurs in `h`.
pub open spec fn find_from(h: Seq<char>, n: Seq<char>, i: int) -> Option<int>
    decreases h.len() - i,
{
    if i < 0 || i + n.len() > h.len() {
        None
    } else if occurs_at(h, n, i) {
        Some(i)
    } else if i >= h.len() {
        None
    } else {
        find_from(h, n, i + 1)
    }
}

/// `str::find` on characters: the first occurrence of `n` in `h`.
pub open spec fn find(h: Seq<char>, n: Seq<char>) -> Option<int> {
    find_from(h, n, 0)
}

pub open spec fn contains(h: Seq<char>, n: Seq<char>) -> bool {
    find(h, n) is Some
}

pub open spec fn starts_with(h: Seq<char>, p: Seq<char>) -> bool {
    p.len() <= h.len() && h.take(p.len() as int) == p
}

pub open spec fn ends_with(h: Seq<char>, p: Seq<char>) -> bool {
    p.len() <= h.len() && h.skip(h.len() - p.len()) == p
}

pub proof fn lemma_find_from_bounds(h: Seq<char>, n: Seq<char>, i: int)
    requires
        0 <= i,
    ensures
        find_from(h, n, i) matches Some(k) ==> i <= k && occurs_at(h, n, k) && (forall|j: int|
            i <= j < k ==> !occurs_at(h, n, j)),
        find_from(h, n, i) is None ==> forall|j: int| i <= j ==> !occurs_at(h, n, j),
    decreases h.len() - i,
{
    if i + n.len() > h.len() {
    } else if !occurs_at(h, n, i) && i < h.len() {
        lemma_find_from_bounds(h, n, i + 1);
    } else if !occurs_at(h, n, i) {
        assert(n.len() == 0);
        assert(h.subrange(i, i) =~= n);
    }
}

/// Whether `n` occurs in `h` at position `i` (both as vectors).
pub fn matches_at(h: &Vec<char>, n: &Vec<char>, i: usize) -> (b: bool)
    ensures
        b == occurs_at(h@, n@, i as int),
{
    if i > h.len() || n.len() > h.len() - i {
        return false;
    }
    let mut k: usize = 0;
    while k < n.len()
        invariant
            i + n.len() <= h.len(),
            k <= n.len(),
            forall|m: int| 0 <= m < k ==> h@[i + m] == n@[m],
        decreases n.len() - k,
    {
        if h[i + k] != n[k] {
            proof {
                assert(h@.subrange(i as int, i + n.len())[k as int] != n@[k as int]);
            }
            return false;
        }
        k = k + 1;
    }
    proof {
        assert(h@.subrange(i as int, i + n.len()) =~= n@);
    }
    true
}

/// First occurrence of `n` in `h` at or after `start`.
pub fn find_vec_from(h: &Vec<char>, n: &Vec<char>, start: usize) -> (r: Option<usize>)
    requires
        start <= h.len(),
    ensures
        r matches Some(k) ==> find_from(h@, n@, start as int) == Some(k as int),
        r is None ==> find_from(h@, n@, start as int) is None,
{
    if n.len() > h.len() - start {
        return None;
    }
    let last = h.len() - n.len();
    let mut i = start;
    while i <= last
        invariant
            start <= i <= last,
            last + n.len() == h.len(),
            find_from(h@, n@, start as int) == find_from(h@, n@, i as int),
        decreases last + 1 - i,
    {
        if matches_at(h, n, i) {
            return Some(i);
        }
        if i == last {
            proof {
                if n@.len() == 0 {
                    assert(h@.subrange(i as int, i as int) =~= n@);
                }
                assert(find_from(h@, n@, i + 1) is None);
            }
            return None;
        }
        i = i + 1;
    }
    None
}

pub fn find_vec(h: &Vec<char>, n: &Vec<char>) -> (r: Option<usize>)
    ensures
        r matches Some(k) ==> find(h@, n@) == Some(k as int),
        r is None ==> find(h@, n@) is None,
{
    find_vec_from(h, n, 0)
}

/// `str::find` for string slices, counted in characters.
pub fn find_str(h: &str, n: &str) -> (r: Option<usize>)
    ensures
        r matches Some(k) ==> find(h@, n@) == Some(k as int),
        r is None ==> find(h@, n@) is None,
{
    let hv = chars_of(h);
    let nv = chars_of(n);
    find_vec(&hv, &nv)
}

/// `str::contains` with a string pattern.
pub fn contains_str(h: &str, n: &str) -> (b: bool)
    ensures
        b == contains(h@, n@),
{
    find_str(h, n).is_some()
}

pub fn starts_with_vec(h: &Vec<char>, p: &Vec<char>) -> (b: bool)
    ensures
        b == starts_with(h@, p@),
{
    if p.len() > h.len() {
        return false;
    }
    let b = matches_at(h, p, 0);
    proof {
        assert(h@.subrange(0, p@.len() as int) =~= h@.take(p@.len() as int));
    }
    b
}

pub fn ends_with_vec(h: &Vec<char>, p: &Vec<char>) -> (b: bool)
    ensures
        b == ends_with(h@, p@),
{
    if p.len() > h.len() {
        return false;
    }
    let b = matches_at(h, p, h.len() - p.len());
    proof {
        assert(h@.subrange(h@.len() - p@.len(), h@.len() as int) =~= h@.skip(
            h@.len() - p@.len(),
        ));
    }
    b
}

/// `str::starts_with` with a string pattern.
pub fn starts_with_str(h: &str, p: &str) -> (b: bool)
    ensures
        b == starts_with(h@, p@),
{
    let hv = chars_of(h);
    let pv = chars_of(p);
    starts_with_vec(&hv, &pv)
}

/// `str::ends_with` with a string pattern.
pub fn ends_with_str(h: &str, p: &str) -> (b: bool)
    ensures
        b == ends_with(h@, p@),
{
    let hv = chars_of(h);
    let pv = chars_of(p);
    ends_with_vec(&hv, &pv)
}

/// String equality on characters.
pub fn str_eq(a: &str, b: &str) -> (r: bool)
    ensures
        r == (a@ == b@),
{
    let av = chars_of(a);
    let bv = chars_of(b);
    if av.len() != bv.len() {
        return false;
    }
    let r = matches_at(&av, &bv, 0);
    proof {
        assert(av@.subrange(0, bv@.len() as int) =~= av@);
    }
    r
}

// ---------------------------------------------------------------------------
// Building strings
// ---------------------------------------------------------------------------

/// Copies the characters of a string slice into a vector.
pub fn chars_of(s: &str) -> (v: Vec<char>)
    ensures
        v@ == s@,
{
    let mut v: Vec<char> = Vec::new();
    for c in it: s.chars()
        invariant
            it.seq() == s@,
            v@ == it.seq().take(it.index() as int),
    {
        v.push(c);
    }
    v
}

/// Calls `String::push`, which appends one character.
#[verifier::external_body]
pub(crate) fn push_char(s: &mut String, c: char)
    ensures
        final(s)@ == old(s)@.push(c),
{
    s.push(c);
}

/// Appends a string slice.
pub fn push_str(s: &mut String, t: &str)
    ensures
        final(s)@ == old(s)@ + t@,
{
    s.append(t);
}

/// The string made of `v[lo..hi]`.
pub fn string_of_range(v: &Vec<char>, lo: usize, hi: usize) -> (s: String)
    requires
        lo <= hi <= v.len(),
    ensures
        s@ == v@.subrange(lo as int, hi as int),
{
    let mut s = String::new();
    let mut i = lo;
    while i < hi
        invariant
            lo <= i <= hi <= v.len(),
            s@ == v@.subrange(lo as int, i as int),
        decreases hi - i,
    {
        push_char(&mut s, v[i]);
        proof {
            assert(v@.subrange(lo as int, i + 1) =~= v@.subrange(lo as int, i as int).push(
                v@[i as int],
            ));
        }
        i = i + 1;
    }
    s
}

pub fn string_of(v: &Vec<char>) -> (s: String)
    ensures
        s@ == v@,
{
    let s = string_of_range(v, 0, v.len());
    proof {
        assert(v@.subrange(0, v@.len() as int) =~= v@);
    }
    s
}

/// `str::trim` followed by `to_string`.
pub fn trim_str(s: &str) -> (r: String)
    ensures
        r@ == trim(s@),
{
    let v = chars_of(s);
    let (a, b) = trim_range(&v, 0, v.len());
    proof {
        assert(v@.subrange(0, v@.len() as int) =~= v@);
    }
    string_of_range(&v, a, b)
}

/// Copies a string slice.
pub fn to_owned(s: &str) -> (r: String)
    ensures
        r@ == s@,
{
    s.to_owned()
}

pub fn copy_string(s: &String) -> (r: String)
    ensures
        r@ == s@,
{
    s.clone()
}

// ---------------------------------------------------------------------------
// Splitting and replacing
// ---------------------------------------------------------------------------

/// Scan state of `split_whitespace` after reading `s`: the words closed so
/// far and the word being read.
pub open spec fn words_scan(s: Seq<char>) -> (Seq<Seq<char>>, Seq<char>)
    decreases s.len(),
{
    if s.len() == 0 {
        (Seq::empty(), Seq::empty())
    } else {
        let (done, cur) = words_scan(s.drop_last());
        let c = s.last();
        if is_ws(c) {
            if cur.len() > 0 {
                (done.push(cur), Seq::empty())
            } else {
                (done, cur)
            }
        } else {
            (done, cur.push(c))
        }
    }
}

/// `str::split_whitespace`: the maximal runs of non-whitespace characters.
pub open spec fn words(s: Seq<char>) -> Seq<Seq<char>> {
    let (done, cur) = words_scan(s);
    if cur.len() > 0 {
        done.push(cur)
    } else {
        done
    }
}

/// Scan state of `str::split` by one character.
pub open spec fn split_scan(s: Seq<char>, sep: char) -> (Seq<Seq<char>>, Seq<char>)
    decreases s.len(),
{
    if s.len() == 0 {
        (Seq::empty(), Seq::empty())
    } else {
        let (done, cur) = split_scan(s.drop_last(), sep);
        if s.last() == sep {
            (done.push(cur), Seq::empty())
        } else {
            (done, cur.push(s.last()))
        }
    }
}

/// `str::split(sep)` for a single character: every piece, empty ones too.
pub open spec fn split(s: Seq<char>, sep: char) -> Seq<Seq<char>> {
    let (done, cur) = split_scan(s, sep);
    done.push(cur)
}

/// `str::replace(p, r)` for a non-empty pattern: the non-overlapping
/// occurrences of `p`, taken from the left, are replaced by `r`.
pub open spec fn replace(s: Seq<char>, p: Seq<char>, r: Seq<char>) -> Seq<char>
    decreases s.len(),
{
    if s.len() == 0 {
        s
    } else if p.len() > 0 && starts_with(s, p) {
        r + replace(s.skip(p.len() as int), p, r)
    } else {
        seq![s[0]] + replace(s.drop_first(), p, r)
    }
}

pub open spec fn view_strings(v: Seq<String>) -> Seq<Seq<char>> {
    v.map_values(|x: String| x@)
}

/// `str::split_whitespace`, collected into owned strings.
pub fn split_whitespace(s: &str) -> (r: Vec<String>)
    ensures
        view_strings(r@) == words(s@),
{
    let v = chars_of(s);
    let mut done: Vec<String> = Vec::new();
    let mut start: usize = 0;
    let mut i: usize = 0;
    while i < v.len()
        invariant
            v@ == s@,
            start <= i <= v.len(),
            (view_strings(done@), v@.subrange(start as int, i as int)) == words_scan(
                v@.take(i as int),
            ),
        decreases v.len() - i,
    {
        let c = v[i];
        proof {
            assert(v@.take(i + 1).drop_last() =~= v@.take(i as int));
            assert(v@.take(i + 1).last() == c);
        }
        if is_whitespace(c) {
            if start < i {
                let w = string_of_range(&v, start, i);
                let ghost prev = done@;
                done.push(w);
                proof {
                    assert(view_strings(done@) =~= view_strings(prev).push(w@));
                }
            }
            start = i + 1;
            proof {
                assert(v@.subrange(start as int, i + 1) =~= Seq::<char>::empty());
            }
        } else {
            proof {
                assert(v@.subrange(start as int, i + 1) =~= v@.subrange(start as int, i as int).push(c));
            }
        }
        i = i + 1;
    }
    proof {
        assert(v@.take(v@.len() as int) =~= v@);
    }
    if start < v.len() {
        let w = string_of_range(&v, start, v.len());
        let ghost prev = done@;
        done.push(w);
        proof {
            assert(view_strings(done@) =~= view_strings(prev).push(w@));
        }
    }
    done
}

/// `str::split(sep)` for one character, collected into owned strings.
pub fn split_char(s: &str, sep: char) -> (r: Vec<String>)
    ensures
        view_strings(r@) == split(s@, sep),
{
    let v = chars_of(s);
    let mut done: Vec<String> = Vec::new();
    let mut start: usize = 0;
    let mut i: usize = 0;
    while i < v.len()
        invariant
            v@ == s@,
            start <= i <= v.len(),
            (view_strings(done@), v@.subrange(start as int, i as int)) == split_scan(
                v@.take(i as int),
                sep,
            ),
        decreases v.len() - i,
    {
        let c = v[i];
        proof {
            assert(v@.take(i + 1).drop_last() =~= v@.take(i as int));
            assert(v@.take(i + 1).last() == c);
        }
        if c == sep {
            let w = string_of_range(&v, start, i);
            let ghost prev = done@;
            done.push(w);
            proof {
                assert(view_strings(done@) =~= view_strings(prev).push(w@));
            }
            start = i + 1;
            proof {
                assert(v@.subrange(start as int, i + 1) =~= Seq::<char>::empty());
            }
        } else {
            proof {
                assert(v@.subrange(start as int, i + 1) =~= v@.subrange(start as int, i as int).push(c));
            }
        }
        i = i + 1;
    }
    proof {
        assert(v@.take(v@.len() as int) =~= v@);
    }
    let w = string_of_range(&v, start, v.len());
    let ghost prev = done@;
    done.push(w);
    proof {
        assert(view_strings(done@) =~= view_strings(prev).push(w@));
    }
    done
}

/// `str::split` with a non-empty string pattern, from position `i`: the
/// pieces between non-overlapping occurrences, found left to right.
pub open spec fn split_str_from(h: Seq<char>, p: Seq<char>, i: int) -> Seq<Seq<char>>
    decreases h.len() - i,
{
    if i < 0 || i > h.len() || p.len() == 0 {
        seq![h.subrange(i, h.len() as int)]
    } else {
        match find_from(h, p, i) {
            Some(k) => if i <= k && k + p.len() <= h.len() {
                seq![h.subrange(i, k)] + split_str_from(h, p, k + p.len())
            } else {
                seq![h.subrange(i, h.len() as int)]
            },
            None => seq![h.subrange(i, h.len() as int)],
        }
    }
}

pub open spec fn split_str_spec(h: Seq<char>, p: Seq<char>) -> Seq<Seq<char>> {
    split_str_from(h, p, 0)
}

/// `str::split` with a non-empty string pattern, collected into owned
/// strings.
pub fn split_str(s: &str, pat: &str) -> (r: Vec<String>)
    requires
        pat@.len() > 0,
    ensures
        view_strings(r@) == split_str_spec(s@, pat@),
{
    let h = chars_of(s);
    let p = chars_of(pat);
    let mut out: Vec<String> = Vec::new();
    let mut i: usize = 0;
    proof {
        assert(view_strings(out@) + split_str_from(h@, p@, 0) =~= split_str_from(h@, p@, 0));
    }
    loop
        invariant
            i <= h@.len(),
            p@.len() > 0,
            h@ == s@,
            p@ == pat@,
            view_strings(out@) + split_str_from(h@, p@, i as int) == split_str_from(h@, p@, 0),
        decreases h@.len() - i,
    {
        match find_vec_from(&h, &p, i) {
            Some(k) => {
                proof {
                    lemma_find_from_bounds(h@, p@, i as int);
                }
                let w = string_of_range(&h, i, k);
                let ghost prev = out@;
                out.push(w);
                proof {
                    assert(view_strings(out@) =~= view_strings(prev).push(w@));
                    assert(view_strings(out@) + split_str_from(h@, p@, k + p@.len())
                        =~= view_strings(prev) + split_str_from(h@, p@, i as int));
                }
                i = k + p.len();
            },
            None => {
                let w = string_of_range(&h, i, h.len());
                let ghost prev = out@;
                out.push(w);
                proof {
                    assert(view_strings(out@) =~= view_strings(prev).push(w@));
                    assert(view_strings(out@) =~= view_strings(prev) + split_str_from(
                        h@,
                        p@,
                        i as int,
                    ));
                }
                return out;
            },
        }
    }
}

pub proof fn lemma_replace_step(s: Seq<char>, p: Seq<char>, r: Seq<char>, i: int)
    requires
        0 <= i < s.len(),
    ensures
        p.len() > 0 && starts_with(s.skip(i), p) ==> replace(s.skip(i), p, r) == r + replace(
            s.skip(i + p.len()),
            p,
            r,
        ),
        !(p.len() > 0 && starts_with(s.skip(i), p)) ==> replace(s.skip(i), p, r) == seq![s[i]]
            + replace(s.skip(i + 1), p, r),
{
    assert(s.skip(i).drop_first() =~= s.skip(i + 1));
    if p.len() > 0 && starts_with(s.skip(i), p) {
        assert(s.skip(i).skip(p.len() as int) =~= s.skip(i + p.len()));
    }
}

pub proof fn lemma_starts_with_skip(h: Seq<char>, p: Seq<char>, i: int)
    requires
        0 <= i <= h.len(),
    ensures
        starts_with(h.skip(i), p) == occurs_at(h, p, i),
{
    if i + p.len() <= h.len() {
        assert(h.skip(i).take(p.len() as int) =~= h.subrange(i, i + p.len()));
    }
}

/// `str::replace` with a string pattern.
pub fn replace_str(s: &str, p: &str, r: &str) -> (out: String)
    ensures
        out@ == replace(s@, p@, r@),
{
    let v = chars_of(s);
    let pv = chars_of(p);
    let mut out = String::new();
    let mut i: usize = 0;
    proof {
        assert(v@.skip(0) =~= v@);
        assert(out@ + replace(v@, p@, r@) =~= replace(v@, p@, r@));
    }
    while i < v.len()
        invariant
            v@ == s@,
            pv@ == p@,
            i <= v.len(),
            out@ + replace(v@.skip(i as int), p@, r@) == replace(s@, p@, r@),
        decreases v.len() - i,
    {
        proof {
            lemma_replace_step(v@, p@, r@, i as int);
        }
        let hit = pv.len() > 0 && matches_at(&v, &pv, i);
        proof {
            lemma_starts_with_skip(v@, p@, i as int);
        }
        if hit {
            let ghost before = out@;
            push_str(&mut out, r);
            proof {
                assert(before + (r@ + replace(v@.skip(i + p@.len()), p@, r@)) =~= out@ + replace(
                    v@.skip(i + p@.len()),
                    p@,
                    r@,
                ));
            }
            i = i + pv.len();
        } else {
            let ghost before = out@;
            push_char(&mut out, v[i]);
            proof {
                assert(before + (seq![v@[i as int]] + replace(v@.skip(i + 1), p@, r@)) =~= out@
                    + replace(v@.skip(i + 1), p@, r@));
            }
            i = i + 1;
        }
    }
    proof {
        assert(v@.skip(i as int) =~= Seq::<char>::empty());
        assert(out@ + Seq::<char>::empty() =~= out@);
    }
    out
}

/// Joins strings with a separator (`[String]::join`).
pub open spec fn join(parts: Seq<Seq<char>>, sep: Seq<char>) -> Seq<char>
    decreases parts.len(),
{
    if parts.len() == 0 {
        Seq::empty()
    } else if parts.len() == 1 {
        parts[0]
    } else {
        join(parts.drop_last(), sep) + sep + parts.last()
    }
}

pub fn join_strings(parts: &Vec<String>, sep: &str) -> (r: String)
    ensures
        r@ == join(view_strings(parts@), sep@),
{
    let mut r = String::new();
    let mut i: usize = 0;
    while i < parts.len()
        invariant
            i <= parts.len(),
            r@ == join(view_strings(parts@.take(i as int)), sep@),
        decreases parts.len() - i,
    {
        proof {
            assert(view_strings(parts@.take(i + 1)).drop_last() =~= view_strings(
                parts@.take(i as int),
            ));
        }
        if i > 0 {
            push_str(&mut r, sep);
        }
        push_str(&mut r, parts[i].as_str());
        proof {
            if i == 0 {
                assert(r@ =~= view_strings(parts@.take(1))[0]);
            }
        }
        i = i + 1;
    }
    proof {
        assert(parts@.take(parts@.len() as int) =~= parts@);
    }
    r
}

// ---------------------------------------------------------------------------
// Facts about trimming
// ---------------------------------------------------------------------------

pub open spec fn no_lead_ws(s: Seq<char>) -> bool {
    s.len() == 0 || !is_ws(s[0])
}

pub open spec fn no_trail_ws(s: Seq<char>) -> bool {
    s.len() == 0 || !is_ws(s.last())
}

pub proof fn lemma_trim_start_props(s: Seq<char>)
    ensures
        no_lead_ws(trim_start(s)),
        no_trail_ws(s) ==> no_trail_ws(trim_start(s)),
        trim_start(s).len() <= s.len(),
        trim_start(s) == s.skip(s.len() - trim_start(s).len()),
    decreases s.len(),
{
    if s.len() > 0 && is_ws(s[0]) {
        lemma_trim_start_props(s.drop_first());
        let t = trim_start(s.drop_first());
        assert(s.drop_first().skip(s.drop_first().len() - t.len()) =~= s.skip(s.len() - t.len()));
    } else {
        assert(s.skip(0) =~= s);
    }
}

pub proof fn lemma_trim_end_props(s: Seq<char>)
    ensures
        no_trail_ws(trim_end(s)),
        no_lead_ws(s) ==> no_lead_ws(trim_end(s)),
        trim_end(s).len() <= s.len(),
        trim_end(s) == s.take(trim_end(s).len() as int),
    decreases s.len(),
{
    if s.len() > 0 && is_ws(s.last()) {
        lemma_trim_end_props(s.drop_last());
        let t = trim_end(s.drop_last());
        assert(s.drop_last().take(t.len() as int) =~= s.take(t.len() as int));
        if no_lead_ws(s) && t.len() > 0 {
            assert(t[0] == s[0]);
        }
    } else {
        assert(s.take(s.len() as int) =~= s);
    }
}

pub proof fn lemma_trim_props(s: Seq<char>)
    ensures
        no_lead_ws(trim(s)),
        no_trail_ws(trim(s)),
{
    lemma_trim_start_props(s);
    lemma_trim_end_props(trim_start(s));
}

pub proof fn lemma_trim_id(s: Seq<char>)
    requires
        no_lead_ws(s),
        no_trail_ws(s),
    ensures
        trim(s) == s,
{
    assert(trim_start(s) == s);
    assert(trim_end(s) == s);
}

pub proof fn lemma_trim_len(s: Seq<char>)
    ensures
        trim(s).len() <= s.len(),
{
    lemma_trim_start_props(s);
    lemma_trim_end_props(trim_start(s));
}

pub proof fn lemma_trim_idem(s: Seq<char>)
    ensures
        trim(trim(s)) == trim(s),
{
    lemma_trim_props(s);
    lemma_trim_id(trim(s));
}

// ---------------------------------------------------------------------------
// Scanning for a character
// ---------------------------------------------------------------------------

/// The first position at or after `i` holding `c`, or the end.
pub open spec fn until_char(s: Seq<char>, i: int, c: char) -> int
    decreases s.len() - i,
{
    if 0 <= i < s.len() && s[i] != c {
        until_char(s, i + 1, c)
    } else {
        i
    }
}

pub proof fn lemma_until_char(s: Seq<char>, i: int, c: char)
    requires
        0 <= i <= s.len(),
    ensures
        i <= until_char(s, i, c) <= s.len(),
        until_char(s, i, c) < s.len() ==> s[until_char(s, i, c)] == c,
        forall|k: int| i <= k < until_char(s, i, c) ==> s[k] != c,
    decreases s.len() - i,
{
    if i < s.len() && s[i] != c {
        lemma_until_char(s, i + 1, c);
    }
}

pub fn until_char_exec(v: &Vec<char>, i: usize, c: char) -> (j: usize)
    requires
        i <= v.len(),
    ensures
        j == until_char(v@, i as int, c),
        i <= j <= v.len(),
{
    let mut j = i;
    while j < v.len() && v[j] != c
        invariant
            i <= j <= v.len(),
            until_char(v@, i as int, c) == until_char(v@, j as int, c),
        decreases v.len() - j,
    {
        j = j + 1;
    }
    j
}


// ---------------------------------------------------------------------------
// Integers
// ---------------------------------------------------------------------------

pub open spec fn all_digits(s: Seq<char>) -> bool {
    forall|i: int| 0 <= i < s.len() ==> is_digit(#[trigger] s[i])
}

/// The value of a string of decimal digits.
pub open spec fn digits_value(s: Seq<char>) -> nat
    decreases s.len(),
{
    if s.len() == 0 {
        0
    } else {
        digits_value(s.drop_last()) * 10 + ((s.last() as int) - 48) as nat
    }
}

/// `str::parse::<usize>`: an optional `+`, then one or more ASCII digits
/// whose value fits in `usize`.
pub open spec fn parse_usize_spec(s: Seq<char>) -> Option<nat> {
    let t = if s.len() > 0 && s[0] == '+' {
        s.drop_first()
    } else {
        s
    };
    if t.len() > 0 && all_digits(t) && digits_value(t) <= usize::MAX {
        Some(digits_value(t))
    } else {
        None
    }
}

/// `str::parse::<i16>`: an optional sign, then one or more ASCII digits
/// whose value fits in `i16`.
pub open spec fn parse_i16_spec(s: Seq<char>) -> Option<int> {
    let signed = s.len() > 0 && (s[0] == '+' || s[0] == '-');
    let t = if signed {
        s.drop_first()
    } else {
        s
    };
    let v: int = if signed && s[0] == '-' {
        -(digits_value(t) as int)
    } else {
        digits_value(t) as int
    };
    if t.len() > 0 && all_digits(t) && -32768 <= v <= 32767 {
        Some(v)
    } else {
        None
    }
}

pub proof fn lemma_digits_prefix(s: Seq<char>, k: int)
    requires
        0 <= k <= s.len(),
        all_digits(s),
    ensures
        digits_value(s.take(k)) <= digits_value(s),
    decreases s.len() - k,
{
    if k < s.len() {
        lemma_digits_prefix(s, k + 1);
        assert(s.take(k + 1).drop_last() =~= s.take(k));
        assert(s.take(k + 1).last() == s[k]);
        assert(is_digit(s[k]));
    } else {
        assert(s.take(k) =~= s);
    }
}

/// The digits of `v[lo..hi]` read as a number, if they all are digits and
/// the value is at most `limit`.
fn read_digits(v: &Vec<char>, lo: usize, hi: usize, limit: u64) -> (r: Option<u64>)
    requires
        lo <= hi <= v.len(),
        limit <= 1844674407370955160,
    ensures
        r matches Some(n) ==> all_digits(v@.subrange(lo as int, hi as int)) && n == digits_value(
            v@.subrange(lo as int, hi as int),
        ) && n <= limit,
        r is None ==> !all_digits(v@.subrange(lo as int, hi as int)) || digits_value(
            v@.subrange(lo as int, hi as int),
        ) > limit,
{
    let ghost t = v@.subrange(lo as int, hi as int);
    let mut acc: u64 = 0;
    let mut j = lo;
    proof {
        assert(t.take(0) =~= Seq::<char>::empty());
    }
    while j < hi
        invariant
            lo <= j <= hi <= v.len(),
            t == v@.subrange(lo as int, hi as int),
            limit <= 1844674407370955160,
            all_digits(t.take(j - lo)),
            acc == digits_value(t.take(j - lo)),
            acc <= limit,
        decreases hi - j,
    {
        let c = v[j];
        proof {
            assert(t[j - lo] == c);
            assert(t.take(j - lo + 1).drop_last() =~= t.take(j - lo));
            assert(t.take(j - lo + 1).last() == c);
        }
        if !('0' <= c && c <= '9') {
            return None;
        }
        let d = (c as u32 - '0' as u32) as u64;
        let next = acc * 10 + d;
        if next > limit {
            proof {
                assert forall|i: int| 0 <= i < j - lo + 1 implies is_digit(#[trigger] t.take(j - lo + 1)[i]) by {
                    if i < j - lo {
                        assert(t.take(j - lo + 1)[i] == t.take(j - lo)[i]);
                    }
                }
                if all_digits(t) {
                    lemma_digits_prefix(t, j - lo + 1);
                }
            }
            return None;
        }
        acc = next;
        proof {
            assert forall|i: int| 0 <= i < j - lo + 1 implies is_digit(#[trigger] t.take(j - lo + 1)[i]) by {
                if i < j - lo {
                    assert(t.take(j - lo + 1)[i] == t.take(j - lo)[i]);
                }
            }
        }
        j = j + 1;
    }
    proof {
        assert(t.take(j - lo) =~= t);
    }
    Some(acc)
}

/// The digits of `v[lo..]` read as a `u64`, if they all are digits and the
/// value fits.
fn parse_digits_u64(v: &Vec<char>, lo: usize) -> (r: Option<u64>)
    requires
        lo <= v.len(),
    ensures
        match r {
            Some(n) => all_digits(v@.subrange(lo as int, v@.len() as int)) && n == digits_value(
                v@.subrange(lo as int, v@.len() as int),
            ),
            None => !all_digits(v@.subrange(lo as int, v@.len() as int)) || digits_value(
                v@.subrange(lo as int, v@.len() as int),
            ) > u64::MAX,
        },
{
    let ghost t = v@.subrange(lo as int, v@.len() as int);
    let mut acc: u64 = 0;
    let mut j = lo;
    proof {
        assert(t.take(0) =~= Seq::<char>::empty());
    }
    while j < v.len()
        invariant
            lo <= j <= v.len(),
            t == v@.subrange(lo as int, v@.len() as int),
            all_digits(t.take(j - lo)),
            acc == digits_value(t.take(j - lo)),
        decreases v.len() - j,
    {
        let c = v[j];
        proof {
            assert(t[j - lo] == c);
            assert(t.take(j - lo + 1).drop_last() =~= t.take(j - lo));
            assert(t.take(j - lo + 1).last() == c);
        }
        if !('0' <= c && c <= '9') {
            return None;
        }
        let d = (c as u32 - '0' as u32) as u64;
        let next = match acc.checked_mul(10) {
            Some(x) => x.checked_add(d),
            None => None,
        };
        proof {
            assert forall|i: int| 0 <= i < j - lo + 1 implies is_digit(#[trigger] t.take(j - lo + 1)[i]) by {
                if i < j - lo {
                    assert(t.take(j - lo + 1)[i] == t.take(j - lo)[i]);
                }
            }
        }
        match next {
            Some(x) => {
                acc = x;
            },
            None => {
                proof {
                    if all_digits(t) {
                        lemma_digits_prefix(t, j - lo + 1);
                    }
                }
                return None;
            },
        }
        j = j + 1;
    }
    proof {
        assert(t.take(j - lo) =~= t);
    }
    Some(acc)
}

/// `str::parse::<u64>`: an optional `+`, then one or more ASCII digits whose
/// value fits in `u64`.
pub open spec fn parse_u64_spec(s: Seq<char>) -> Option<nat> {
    let t = if s.len() > 0 && s[0] == '+' {
        s.drop_first()
    } else {
        s
    };
    if t.len() > 0 && all_digits(t) && digits_value(t) <= u64::MAX {
        Some(digits_value(t))
    } else {
        None
    }
}

/// `str::parse::<u64>` on a string slice.
pub fn parse_u64(s: &str) -> (r: Option<u64>)
    ensures
        match r {
            Some(n) => parse_u64_spec(s@) == Some(n as nat),
            None => parse_u64_spec(s@) is None,
        },
{
    let v = chars_of(s);
    let lo: usize = if v.len() > 0 && v[0] == '+' {
        1
    } else {
        0
    };
    proof {
        let t = if s@.len() > 0 && s@[0] == '+' {
            s@.drop_first()
        } else {
            s@
        };
        assert(t =~= v@.subrange(lo as int, v@.len() as int));
    }
    if lo == v.len() {
        return None;
    }
    parse_digits_u64(&v, lo)
}

/// `str::parse::<usize>` on a string slice.
pub fn parse_usize(s: &str) -> (r: Option<usize>)
    ensures
        match r {
            Some(n) => parse_usize_spec(s@) == Some(n as nat),
            None => parse_usize_spec(s@) is None,
        },
{
    match parse_u64(s) {
        Some(n) => {
            if n <= usize::MAX as u64 {
                Some(n as usize)
            } else {
                None
            }
        },
        None => None,
    }
}

/// `str::parse::<i16>` on a string slice.
pub fn parse_i16(s: &str) -> (r: Option<i16>)
    ensures
        match r {
            Some(n) => parse_i16_spec(s@) == Some(n as int),
            None => parse_i16_spec(s@) is None,
        },
{
    let v = chars_of(s);
    let signed = v.len() > 0 && (v[0] == '+' || v[0] == '-');
    let neg = signed && v[0] == '-';
    let lo: usize = if signed {
        1
    } else {
        0
    };
    proof {
        let t = if signed {
            s@.drop_first()
        } else {
            s@
        };
        assert(t =~= v@.subrange(lo as int, v@.len() as int));
    }
    if lo == v.len() {
        return None;
    }
    match read_digits(&v, lo, v.len(), 32768) {
        Some(n) => {
            if neg {
                let x = 0i32 - (n as i32);
                Some(x as i16)
            } else if n <= 32767 {
                Some(n as i16)
            } else {
                None
            }
        },
        None => None,
    }
}


/// Whether `w` is one of the whitespace-separated words of `s`.
pub fn contains_word(s: &str, w: &str) -> (b: bool)
    ensures
        b == words(s@).contains(w@),
{
    let ws = split_whitespace(s);
    let mut k: usize = 0;
    while k < ws.len()
        invariant
            k <= ws@.len(),
            view_strings(ws@) == words(s@),
            forall|j: int| 0 <= j < k ==> ws@[j]@ != w@,
        decreases ws.len() - k,
    {
        if str_eq(ws[k].as_str(), w) {
            proof {
                assert(0 <= k < view_strings(ws@).len());
                assert(view_strings(ws@)[k as int] == w@);
                assert(words(s@)[k as int] == w@);
            }
            return true;
        }
        k = k + 1;
    }
    proof {
        if words(s@).contains(w@) {
            let j = choose|j: int| 0 <= j < words(s@).len() && words(s@)[j] == w@;
            assert(ws@[j]@ == w@);
        }
    }
    false
}


/// The decimal digits of a natural number, most significant first.
pub open spec fn decimal(n: nat) -> Seq<char>
    decreases n,
{
    if n < 10 {
        seq![(n + 48) as char]
    } else {
        decimal(n / 10).push(((n % 10) + 48) as char)
    }
}

/// A signed number in decimal, with `-` before a negative one.
pub open spec fn decimal_signed(n: int) -> Seq<char> {
    if n < 0 {
        seq!['-'] + decimal((-n) as nat)
    } else {
        decimal(n as nat)
    }
}

fn digit_char(d: u64) -> (c: char)
    requires
        d < 10,
    ensures
        c == (d + 48) as char,
{
    if d == 0 {
        '0'
    } else if d == 1 {
        '1'
    } else if d == 2 {
        '2'
    } else if d == 3 {
        '3'
    } else if d == 4 {
        '4'
    } else if d == 5 {
        '5'
    } else if d == 6 {
        '6'
    } else if d == 7 {
        '7'
    } else if d == 8 {
        '8'
    } else {
        '9'
    }
}

/// Appends a number in decimal.
pub fn push_decimal(out: &mut String, n: u64)
    ensures
        final(out)@ == old(out)@ + decimal(n as nat),
    decreases n,
{
    if n >= 10 {
        push_decimal(out, n / 10);
        let c = digit_char(n % 10);
        push_char(out, c);
        proof {
            assert(old(out)@ + decimal(n as nat) =~= old(out)@ + decimal((n / 10) as nat) + seq![c]);
        }
    } else {
        let c = digit_char(n);
        push_char(out, c);
        proof {
            assert(old(out)@ + decimal(n as nat) =~= old(out)@.push(c));
        }
    }
}

/// Appends a signed number in decimal.
pub fn push_decimal_signed(out: &mut String, n: i64)
    ensures
        final(out)@ == old(out)@ + decimal_signed(n as int),
{
    if n < 0 {
        push_char(out, '-');
        let m: u64 = if n == i64::MIN {
            9223372036854775808u64
        } else {
            (-n) as u64
        };
        push_decimal(out, m);
        proof {
            assert(old(out)@ + decimal_signed(n as int) =~= old(out)@.push('-') + decimal(
                m as nat,
            ));
        }
    } else {
        push_decimal(out, n as u64);
    }
}


proof fn lemma_decimal_digits(n: nat)
    ensures
        decimal(n).len() > 0,
        all_digits(decimal(n)),
        digits_value(decimal(n)) == n,
    decreases n,
{
    if n < 10 {
        let d = decimal(n);
        assert(d.drop_last() =~= Seq::<char>::empty());
        assert((d.last() as int) == n + 48);
        assert(digits_value(d) == digits_value(d.drop_last()) * 10 + ((d.last() as int) - 48) as nat);
        assert(digits_value(Seq::<char>::empty()) == 0);
    } else {
        lemma_decimal_digits(n / 10);
        let d = decimal(n);
        let p = decimal(n / 10);
        assert(d.drop_last() =~= p);
        assert((d.last() as int) == (n % 10) + 48);
        assert(digits_value(d) == digits_value(p) * 10 + ((d.last() as int) - 48) as nat);
        assert((n / 10) * 10 + n % 10 == n);
        assert forall|i: int| 0 <= i < d.len() implies is_digit(#[trigger] d[i]) by {
            if i < p.len() {
                assert(d[i] == p[i]);
            }
        }
    }
}

/// Reading back a number written in decimal gives the number.
pub proof fn law_decimal_roundtrip(n: u64)
    ensures
        parse_u64_spec(decimal(n as nat)) == Some(n as nat),
{
    lemma_decimal_digits(n as nat);
    let d = decimal(n as nat);
    assert(is_digit(d[0]));
}


// ---------------------------------------------------------------------------
// Words and joining
// ---------------------------------------------------------------------------

/// A word: non-empty, without whitespace.
pub open spec fn is_word(w: Seq<char>) -> bool {
    w.len() > 0 && forall|i: int| 0 <= i < w.len() ==> !is_ws(#[trigger] w[i])
}

proof fn lemma_scan_words(s: Seq<char>)
    ensures
        forall|i: int| 0 <= i < words_scan(s).0.len() ==> is_word(#[trigger] words_scan(s).0[i]),
        forall|i: int| 0 <= i < words_scan(s).1.len() ==> !is_ws(#[trigger] words_scan(s).1[i]),
    decreases s.len(),
{
    if s.len() > 0 {
        lemma_scan_words(s.drop_last());
        let (done, cur) = words_scan(s.drop_last());
        let c = s.last();
        if is_ws(c) {
            if cur.len() > 0 {
                assert forall|i: int| 0 <= i < done.push(cur).len() implies is_word(#[trigger] done.push(cur)[i]) by {
                    if i < done.len() {
                        assert(done.push(cur)[i] == done[i]);
                    }
                }
            }
        } else {
            assert forall|i: int| 0 <= i < cur.push(c).len() implies !is_ws(#[trigger] cur.push(c)[i]) by {
                if i < cur.len() {
                    assert(cur.push(c)[i] == cur[i]);
                }
            }
        }
    }
}

/// The words of a text are words.
pub proof fn lemma_words_are_words(s: Seq<char>)
    ensures
        forall|i: int| 0 <= i < words(s).len() ==> is_word(#[trigger] words(s)[i]),
{
    lemma_scan_words(s);
    let (done, cur) = words_scan(s);
    if cur.len() > 0 {
        assert forall|i: int| 0 <= i < done.push(cur).len() implies is_word(#[trigger] done.push(cur)[i]) by {
            if i < done.len() {
                assert(done.push(cur)[i] == done[i]);
            }
        }
    }
}

/// Scanning the characters of a word after a separator: the words found
/// so far stay, the word is the current run.
proof fn lemma_scan_after_space(x: Seq<char>, w: Seq<char>, k: int)
    requires
        0 <= k <= w.len(),
        forall|i: int| 0 <= i < w.len() ==> !is_ws(#[trigger] w[i]),
    ensures
        words_scan(x + seq![' '] + w.take(k)) == (words(x), w.take(k)),
    decreases k,
{
    let sp = x + seq![' '];
    if k == 0 {
        assert(sp + w.take(0) =~= sp);
        assert(sp.drop_last() =~= x);
        assert(is_ws(' '));
        assert(Seq::<char>::empty().push(' ').len() > 0);
        let (done, cur) = words_scan(x);
        assert(w.take(0) =~= Seq::<char>::empty());
    } else {
        lemma_scan_after_space(x, w, k - 1);
        assert((sp + w.take(k)).drop_last() =~= sp + w.take(k - 1));
        assert((sp + w.take(k)).last() == w[k - 1]);
        assert(w.take(k - 1).push(w[k - 1]) =~= w.take(k));
    }
}

/// The words of `x`, a space and a word are those of `x` and the word.
pub proof fn lemma_words_append(x: Seq<char>, w: Seq<char>)
    requires
        is_word(w),
    ensures
        words(x + seq![' '] + w) == words(x).push(w),
{
    lemma_scan_after_space(x, w, w.len() as int);
    assert(w.take(w.len() as int) =~= w);
}

/// The words of a single word are that word.
pub proof fn lemma_words_single(w: Seq<char>)
    requires
        is_word(w),
    ensures
        words(w) == seq![w],
{
    lemma_scan_after_space(Seq::empty(), w, w.len() as int);
    assert(w.take(w.len() as int) =~= w);
    let e = Seq::<char>::empty();
    assert(words_scan(e + seq![' '] + w) == (words(e), w));
    assert(words(e) =~= Seq::<Seq<char>>::empty());
    // scanning a leading space changes nothing, so the scans agree
    lemma_scan_leading_space(w, w.len() as int);
}

proof fn lemma_scan_leading_space(w: Seq<char>, k: int)
    requires
        0 <= k <= w.len(),
    ensures
        words_scan(seq![' '] + w.take(k)) == words_scan(w.take(k)),
    decreases k,
{
    if k == 0 {
        assert(seq![' '] + w.take(0) =~= seq![' ']);
        assert(seq![' '].drop_last() =~= Seq::<char>::empty());
        assert(w.take(0) =~= Seq::<char>::empty());
    } else {
        lemma_scan_leading_space(w, k - 1);
        assert((seq![' '] + w.take(k)).drop_last() =~= seq![' '] + w.take(k - 1));
        assert((seq![' '] + w.take(k)).last() == w[k - 1]);
        assert(w.take(k).drop_last() =~= w.take(k - 1));
        assert(w.take(k).last() == w[k - 1]);
    }
}

/// Splitting words joined by spaces gives them back.
pub proof fn lemma_words_join(ws: Seq<Seq<char>>)
    requires
        forall|i: int| 0 <= i < ws.len() ==> is_word(#[trigger] ws[i]),
    ensures
        words(join(ws, seq![' '])) == ws,
    decreases ws.len(),
{
    if ws.len() == 0 {
        assert(words(Seq::<char>::empty()) =~= ws);
    } else if ws.len() == 1 {
        lemma_words_single(ws[0]);
        assert(seq![ws[0]] =~= ws);
    } else {
        lemma_words_join(ws.drop_last());
        lemma_words_append(join(ws.drop_last(), seq![' ']), ws.last());
        assert(ws.drop_last().push(ws.last()) =~= ws);
    }
}

} // verus!
