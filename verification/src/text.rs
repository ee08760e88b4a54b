//! Character-level text primitives: whitespace, trimming, prefixes,
//! substring search, and building strings from characters.
use vstd::prelude::*;

verus! {

/// Characters with the Unicode `White_Space` property (what `char::is_whitespace` tests).
pub open spec fn is_ws(c: char) -> bool {
    ||| ('\u{9}' <= c && c <= '\u{d}')
    ||| c == ' '
    ||| c == '\u{85}'
    ||| c == '\u{a0}'
    ||| c == '\u{1680}'
    ||| ('\u{2000}' <= c && c <= '\u{200a}')
    ||| c == '\u{2028}'
    ||| c == '\u{2029}'
    ||| c == '\u{202f}'
    ||| c == '\u{205f}'
    ||| c == '\u{3000}'
}

/// The class of characters that a trim removes: whitespace, or the double quote.
pub open spec fn in_class(c: char, quote: bool) -> bool {
    if quote {
        c == '"'
    } else {
        is_ws(c)
    }
}

/// `s` without its leading characters of the class.
pub open spec fn trim_start_of(s: Seq<char>, quote: bool) -> Seq<char>
    decreases s.len(),
{
    if s.len() > 0 && in_class(s[0], quote) {
        trim_start_of(s.drop_first(), quote)
    } else {
        s
    }
}

/// `s` without its trailing characters of the class.
pub open spec fn trim_end_of(s: Seq<char>, quote: bool) -> Seq<char>
    decreases s.len(),
{
    if s.len() > 0 && in_class(s.last(), quote) {
        trim_end_of(s.drop_last(), quote)
    } else {
        s
    }
}

/// `str::trim_start`.
pub open spec fn trim_start(s: Seq<char>) -> Seq<char> {
    trim_start_of(s, false)
}

/// `str::trim`.
pub open spec fn trim(s: Seq<char>) -> Seq<char> {
    trim_end_of(trim_start_of(s, false), false)
}

/// `str::trim_matches('"')`.
pub open spec fn trim_quotes(s: Seq<char>) -> Seq<char> {
    trim_end_of(trim_start_of(s, true), true)
}

/// `str::starts_with`.
pub open spec fn starts_with(s: Seq<char>, p: Seq<char>) -> bool {
    p.len() <= s.len() && s.subrange(0, p.len() as int) == p
}

/// `str::contains` with a string pattern: `p` occurs in `s` at some position.
pub open spec fn contains_at(s: Seq<char>, p: Seq<char>, i: int) -> bool {
    0 <= i && i + p.len() <= s.len() && s.subrange(i, i + p.len()) == p
}

pub open spec fn contains_seq(s: Seq<char>, p: Seq<char>) -> bool {
    exists|i: int| contains_at(s, p, i)
}

pub fn char_is_ws(c: char) -> (r: bool)
    ensures
        r == is_ws(c),
{
    ('\u{9}' <= c && c <= '\u{d}') || c == ' ' || c == '\u{85}' || c == '\u{a0}' || c == '\u{1680}'
        || ('\u{2000}' <= c && c <= '\u{200a}') || c == '\u{2028}' || c == '\u{2029}' || c
        == '\u{202f}' || c == '\u{205f}' || c == '\u{3000}'
}

fn char_in_class(c: char, quote: bool) -> (r: bool)
    ensures
        r == in_class(c, quote),
{
    if quote {
        c == '"'
    } else {
        char_is_ws(c)
    }
}

/// The characters of `s`, in order.
pub fn chars_of(s: &str) -> (v: Vec<char>)
    ensures
        v@ == s@,
{
    broadcast use vstd::string::group_string_axioms;

    let mut v: Vec<char> = Vec::new();
    for c in it: s.chars()
        invariant
            it.seq() == s@,
            v@ == it.seq().take(it.index() as int),
    {
        v.push(c);
    }
    assert(v@ =~= s@);
    v
}

/// Appends one character to a `String` (`String::push`).
#[verifier::external_body]
fn push_char(s: &mut String, c: char)
    ensures
        final(s)@ == old(s)@.push(c),
{
    s.push(c);
}

/// A `String` made of the characters `v[a..b]`.
pub fn string_from_range(v: &[char], a: usize, b: usize) -> (r: String)
    requires
        a <= b <= v@.len(),
    ensures
        r@ == v@.subrange(a as int, b as int),
{
    let mut r = String::new();
    let mut i = a;
    while i < b
        invariant
            a <= i <= b <= v@.len(),
            r@ == v@.subrange(a as int, i as int),
        decreases b - i,
    {
        push_char(&mut r, v[i]);
        i = i + 1;
        assert(r@ =~= v@.subrange(a as int, i as int));
    }
    r
}

/// A `String` made of the characters of `v`.
pub fn string_from_chars(v: &[char]) -> (r: String)
    ensures
        r@ == v@,
{
    let r = string_from_range(v, 0, v.len());
    assert(v@.subrange(0, v@.len() as int) =~= v@);
    r
}

/// Appends the characters `v[a..b]` to `out`.
pub fn extend_range(out: &mut Vec<char>, v: &[char], a: usize, b: usize)
    requires
        a <= b <= v@.len(),
    ensures
        final(out)@ == old(out)@ + v@.subrange(a as int, b as int),
{
    let mut i = a;
    while i < b
        invariant
            a <= i <= b <= v@.len(),
            out@ == old(out)@ + v@.subrange(a as int, i as int),
        decreases b - i,
    {
        out.push(v[i]);
        i = i + 1;
        assert(out@ =~= old(out)@ + v@.subrange(a as int, i as int));
    }
}

/// Appends all characters of `v` to `out`.
pub fn extend_all(out: &mut Vec<char>, v: &[char])
    ensures
        final(out)@ == old(out)@ + v@,
{
    extend_range(out, v, 0, v.len());
    assert(v@.subrange(0, v@.len() as int) =~= v@);
}

/// Appends the characters of `s` to `out`.
pub fn extend_str(out: &mut Vec<char>, s: &str)
    ensures
        final(out)@ == old(out)@ + s@,
{
    let v = chars_of(s);
    extend_all(out, v.as_slice());
}

/// Index after the leading characters of the class in `v[a..b]`.
pub fn skip_class_start(v: &[char], a: usize, b: usize, quote: bool) -> (r: usize)
    requires
        a <= b <= v@.len(),
    ensures
        a <= r <= b,
        v@.subrange(r as int, b as int) == trim_start_of(v@.subrange(a as int, b as int), quote),
{
    let mut i = a;
    while i < b && char_in_class(v[i], quote)
        invariant
            a <= i <= b <= v@.len(),
            trim_start_of(v@.subrange(i as int, b as int), quote) == trim_start_of(
                v@.subrange(a as int, b as int),
                quote,
            ),
        decreases b - i,
    {
        assert(v@.subrange(i as int, b as int).drop_first() =~= v@.subrange(i + 1, b as int));
        i = i + 1;
    }
    proof {
        lemma_trim_start_stops(v@.subrange(i as int, b as int), quote);
    }
    i
}

/// Trimming stops at a character outside the class.
pub proof fn lemma_trim_start_stops(s: Seq<char>, quote: bool)
    requires
        s.len() == 0 || !in_class(s[0], quote),
    ensures
        trim_start_of(s, quote) == s,
{
}

/// Whitespace in front changes nothing once leading whitespace is trimmed.
pub proof fn lemma_trim_start_of_ws_prefix(p: Seq<char>, s: Seq<char>)
    requires
        forall|i: int| 0 <= i < p.len() ==> is_ws(#[trigger] p[i]),
    ensures
        trim_start_of(p + s, false) == trim_start_of(s, false),
    decreases p.len(),
{
    if p.len() > 0 {
        assert((p + s).drop_first() =~= p.drop_first() + s);
        assert(is_ws(p[0]));
        assert((p + s)[0] == p[0]);
        lemma_trim_start_of_ws_prefix(p.drop_first(), s);
    } else {
        assert(p + s =~= s);
    }
}

/// Characters after a text that holds a character outside the class stay
/// after its leading-trimmed form.
proof fn lemma_trim_start_of_append(p: Seq<char>, w: Seq<char>, quote: bool)
    requires
        exists|i: int| 0 <= i < p.len() && !in_class(#[trigger] p[i], quote),
    ensures
        trim_start_of(p + w, quote) == trim_start_of(p, quote) + w,
    decreases p.len(),
{
    if in_class(p[0], quote) {
        let i = choose|i: int| 0 <= i < p.len() && !in_class(#[trigger] p[i], quote);
        assert(p.drop_first()[i - 1] == p[i]);
        assert((p + w).drop_first() =~= p.drop_first() + w);
        assert((p + w)[0] == p[0]);
        lemma_trim_start_of_append(p.drop_first(), w, quote);
    } else {
        assert((p + w)[0] == p[0]);
    }
}

/// Trimming the end drops trailing characters of the class.
proof fn lemma_trim_end_of_append(x: Seq<char>, w: Seq<char>, quote: bool)
    requires
        forall|i: int| 0 <= i < w.len() ==> in_class(#[trigger] w[i], quote),
    ensures
        trim_end_of(x + w, quote) == trim_end_of(x, quote),
    decreases w.len(),
{
    if w.len() > 0 {
        assert((x + w).drop_last() =~= x + w.drop_last());
        assert((x + w).last() == w[w.len() - 1]);
        lemma_trim_end_of_append(x, w.drop_last(), quote);
    } else {
        assert(x + w =~= x);
    }
}

/// Text made only of class characters trims to nothing.
proof fn lemma_trim_start_of_all(p: Seq<char>, quote: bool)
    requires
        forall|i: int| 0 <= i < p.len() ==> in_class(#[trigger] p[i], quote),
    ensures
        trim_start_of(p, quote) == Seq::<char>::empty(),
    decreases p.len(),
{
    if p.len() > 0 {
        assert(in_class(p[0], quote));
        lemma_trim_start_of_all(p.drop_first(), quote);
    }
}

/// Whitespace padding on either side does not change what `trim` gives.
pub proof fn lemma_trim_padding(w1: Seq<char>, p: Seq<char>, w2: Seq<char>)
    requires
        forall|i: int| 0 <= i < w1.len() ==> is_ws(#[trigger] w1[i]),
        forall|i: int| 0 <= i < w2.len() ==> is_ws(#[trigger] w2[i]),
    ensures
        trim(w1 + p + w2) == trim(p),
{
    assert(w1 + p + w2 =~= w1 + (p + w2));
    lemma_trim_start_of_ws_prefix(w1, p + w2);
    if exists|i: int| 0 <= i < p.len() && !in_class(#[trigger] p[i], false) {
        lemma_trim_start_of_append(p, w2, false);
        lemma_trim_end_of_append(trim_start_of(p, false), w2, false);
    } else {
        lemma_trim_start_of_all(p, false);
        assert forall|i: int| 0 <= i < (p + w2).len() implies in_class(#[trigger] (p + w2)[i], false) by {
            if i >= p.len() {
                assert((p + w2)[i] == w2[i - p.len()]);
            }
        }
        lemma_trim_start_of_all(p + w2, false);
    }
}

/// Trimming a class (whitespace, or the double quote) removes exactly the
/// padding of that class: `w1 + p + w2`, with `w1` and `w2` of the class and
/// `p` neither starting nor ending with it, trims to `p`.
pub proof fn lemma_trim_class_exact(w1: Seq<char>, p: Seq<char>, w2: Seq<char>, quote: bool)
    requires
        forall|i: int| 0 <= i < w1.len() ==> in_class(#[trigger] w1[i], quote),
        forall|i: int| 0 <= i < w2.len() ==> in_class(#[trigger] w2[i], quote),
        p.len() == 0 || (!in_class(p[0], quote) && !in_class(p.last(), quote)),
    ensures
        trim_end_of(trim_start_of(w1 + p + w2, quote), quote) == p,
    decreases w1.len(),
{
    if w1.len() > 0 {
        let s = w1 + p + w2;
        assert(s[0] == w1[0]);
        assert(s.drop_first() =~= w1.drop_first() + p + w2);
        lemma_trim_class_exact(w1.drop_first(), p, w2, quote);
    } else {
        assert(w1 + p + w2 =~= p + w2);
        if p.len() > 0 {
            lemma_trim_start_of_append(p, w2, quote);
            assert((p + w2)[0] == p[0]);
            lemma_trim_end_of_append(p, w2, quote);
            assert(p.drop_last().push(p.last()) =~= p);
        } else {
            assert(p + w2 =~= w2);
            lemma_trim_start_of_all(w2, quote);
        }
    }
}

/// Index before the trailing characters of the class in `v[a..b]`.
pub fn skip_class_end(v: &[char], a: usize, b: usize, quote: bool) -> (r: usize)
    requires
        a <= b <= v@.len(),
    ensures
        a <= r <= b,
        v@.subrange(a as int, r as int) == trim_end_of(v@.subrange(a as int, b as int), quote),
{
    let mut j = b;
    while j > a && char_in_class(v[j - 1], quote)
        invariant
            a <= j <= b <= v@.len(),
            trim_end_of(v@.subrange(a as int, j as int), quote) == trim_end_of(
                v@.subrange(a as int, b as int),
                quote,
            ),
        decreases j - a,
    {
        assert(v@.subrange(a as int, j as int).drop_last() =~= v@.subrange(a as int, j - 1));
        j = j - 1;
    }
    j
}

/// The range of `trim(v[a..b])` within `v`.
pub fn trim_range(v: &[char], a: usize, b: usize) -> (r: (usize, usize))
    requires
        a <= b <= v@.len(),
    ensures
        a <= r.0 <= r.1 <= b,
        v@.subrange(r.0 as int, r.1 as int) == trim(v@.subrange(a as int, b as int)),
{
    let s = skip_class_start(v, a, b, false);
    let e = skip_class_end(v, s, b, false);
    (s, e)
}

/// The range of `trim_matches('"')` of `v[a..b]` within `v`.
pub fn trim_quotes_range(v: &[char], a: usize, b: usize) -> (r: (usize, usize))
    requires
        a <= b <= v@.len(),
    ensures
        a <= r.0 <= r.1 <= b,
        v@.subrange(r.0 as int, r.1 as int) == trim_quotes(v@.subrange(a as int, b as int)),
{
    let s = skip_class_start(v, a, b, true);
    let e = skip_class_end(v, s, b, true);
    (s, e)
}

/// Whether `v[a..b]` starts with `p`.
pub fn range_starts_with(v: &[char], a: usize, b: usize, p: &[char]) -> (r: bool)
    requires
        a <= b <= v@.len(),
    ensures
        r == starts_with(v@.subrange(a as int, b as int), p@),
{
    if p.len() > b - a {
        return false;
    }
    let mut k: usize = 0;
    while k < p.len()
        invariant
            a <= b <= v@.len(),
            p@.len() <= b - a,
            0 <= k <= p@.len(),
            forall|j: int| 0 <= j < k ==> v@[a + j] == p@[j],
        decreases p.len() - k,
    {
        if v[a + k] != p[k] {
            assert(v@.subrange(a as int, b as int).subrange(0, p@.len() as int)[k as int] != p@[k as int]);
            return false;
        }
        k = k + 1;
    }
    assert(v@.subrange(a as int, b as int).subrange(0, p@.len() as int) =~= p@);
    true
}

/// Whether `p` occurs in `v[a..b]`.
pub fn range_contains(v: &[char], a: usize, b: usize, p: &[char]) -> (r: bool)
    requires
        a <= b <= v@.len(),
    ensures
        r == contains_seq(v@.subrange(a as int, b as int), p@),
{
    let ghost s = v@.subrange(a as int, b as int);
    if p.len() > b - a {
        assert forall|i: int| !contains_at(s, p@, i) by {}
        return false;
    }
    let mut i = a;
    loop
        invariant
            a <= b <= v@.len(),
            p@.len() <= b - a,
            a <= i <= b - p@.len(),
            s == v@.subrange(a as int, b as int),
            forall|k: int| 0 <= k < i - a ==> !contains_at(s, p@, k),
        ensures
            forall|k: int| 0 <= k <= b - p@.len() - a ==> !contains_at(s, p@, k),
        decreases b - p.len() - i,
    {
        assert(v@.subrange(i as int, b as int).subrange(0, p@.len() as int) =~= s.subrange(
            i - a,
            i - a + p@.len(),
        ));
        if range_starts_with(v, i, b, p) {
            assert(contains_at(s, p@, i - a));
            return true;
        }
        if i == b - p.len() {
            break;
        }
        i = i + 1;
    }
    assert forall|k: int| !contains_at(s, p@, k) by {}
    false
}

/// Whether two character sequences are equal.
pub fn chars_eq(x: &[char], y: &[char]) -> (r: bool)
    ensures
        r == (x@ == y@),
{
    if x.len() != y.len() {
        return false;
    }
    let mut k: usize = 0;
    while k < x.len()
        invariant
            x@.len() == y@.len(),
            0 <= k <= x@.len(),
            forall|j: int| 0 <= j < k ==> x@[j] == y@[j],
        decreases x.len() - k,
    {
        if x[k] != y[k] {
            return false;
        }
        k = k + 1;
    }
    assert(x@ =~= y@);
    true
}

/// Whether `v[a..b]` equals `p`.
pub fn range_eq(v: &[char], a: usize, b: usize, p: &[char]) -> (r: bool)
    requires
        a <= b <= v@.len(),
    ensures
        r == (v@.subrange(a as int, b as int) == p@),
{
    if b - a != p.len() {
        return false;
    }
    let r = range_starts_with(v, a, b, p);
    assert(v@.subrange(a as int, b as int).subrange(0, p@.len() as int) =~= v@.subrange(
        a as int,
        b as int,
    ));
    r
}

/// Whether the character `c` occurs in `v[a..b]`.
pub fn range_has_char(v: &[char], a: usize, b: usize, c: char) -> (r: bool)
    requires
        a <= b <= v@.len(),
    ensures
        r == v@.subrange(a as int, b as int).contains(c),
{
    let mut i = a;
    while i < b
        invariant
            a <= i <= b <= v@.len(),
            forall|k: int| a <= k < i ==> v@[k] != c,
        decreases b - i,
    {
        if v[i] == c {
            assert(v@.subrange(a as int, b as int)[i - a] == c);
            return true;
        }
        i = i + 1;
    }
    false
}

/// Whether two strings are equal.
pub fn str_eq(s: &str, t: &str) -> (r: bool)
    ensures
        r == (s@ == t@),
{
    let a = chars_of(s);
    let b = chars_of(t);
    chars_eq(a.as_slice(), b.as_slice())
}

} // verus!
