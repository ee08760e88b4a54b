//! Splitting text: on a separator character (`str::split`), into lines
//! (`str::lines`), and into whitespace-separated words (`str::split_whitespace`).
//! Pieces are returned as index ranges into the character sequence.
use vstd::prelude::*;
use crate::text::is_ws;

verus! {

/// `str::split(c)`: the pieces between occurrences of `c` (always at least one).
pub open spec fn split_on(s: Seq<char>, c: char) -> Seq<Seq<char>>
    decreases s.len(),
{
    if s.len() == 0 {
        seq![Seq::<char>::empty()]
    } else {
        let p = split_on(s.drop_last(), c);
        if s.last() == c {
            p.push(Seq::<char>::empty())
        } else {
            p.update(p.len() - 1, p.last().push(s.last()))
        }
    }
}

/// A line without one trailing carriage return.
pub open spec fn strip_cr(l: Seq<char>) -> Seq<char> {
    if l.len() > 0 && l.last() == '\r' {
        l.drop_last()
    } else {
        l
    }
}

/// `str::lines`: pieces ended by `\n` (one `\r` before it dropped);
/// a last piece without `\n` is kept as it is unless it is empty.
pub open spec fn lines(s: Seq<char>) -> Seq<Seq<char>> {
    let p = split_on(s, '\n');
    let body = p.drop_last().map_values(|l: Seq<char>| strip_cr(l));
    if p.last().len() == 0 {
        body
    } else {
        body.push(p.last())
    }
}

/// `str::split_whitespace`: the maximal runs of non-whitespace characters.
pub open spec fn words(s: Seq<char>) -> Seq<Seq<char>>
    decreases s.len(),
{
    if s.len() == 0 {
        Seq::<Seq<char>>::empty()
    } else {
        let w = words(s.drop_last());
        let x = s.last();
        if is_ws(x) {
            w
        } else if s.len() > 1 && !is_ws(s[s.len() - 2]) {
            w.update(w.len() - 1, w.last().push(x))
        } else {
            w.push(seq![x])
        }
    }
}

proof fn lemma_words_nonempty(s: Seq<char>)
    requires
        s.len() > 0,
        !is_ws(s.last()),
    ensures
        words(s).len() > 0,
    decreases s.len(),
{
    if s.len() > 1 && !is_ws(s[s.len() - 2]) {
        assert(s.drop_last().last() == s[s.len() - 2]);
        lemma_words_nonempty(s.drop_last());
    }
}

/// A non-empty run of non-whitespace characters is one word.
pub proof fn lemma_words_single(w: Seq<char>)
    requires
        w.len() > 0,
        forall|i: int| 0 <= i < w.len() ==> !is_ws(#[trigger] w[i]),
    ensures
        words(w) == seq![w],
    decreases w.len(),
{
    let x = w.last();
    assert(!is_ws(w[w.len() - 1]));
    if w.len() == 1 {
        assert(words(w.drop_last()) == Seq::<Seq<char>>::empty());
        assert(seq![x] =~= w);
    } else {
        let v = w.drop_last();
        assert forall|i: int| 0 <= i < v.len() implies !is_ws(#[trigger] v[i]) by {
            assert(v[i] == w[i]);
        }
        lemma_words_single(v);
        assert(!is_ws(w[w.len() - 2]));
        assert(v.push(x) =~= w);
        assert(words(w) =~= seq![w]);
    }
}

/// Whitespace separates words: the words of `a`, a whitespace character and
/// `b` are the words of `a` followed by the words of `b`.
pub proof fn lemma_words_split_at_ws(a: Seq<char>, c: char, b: Seq<char>)
    requires
        is_ws(c),
    ensures
        words(a + seq![c] + b) == words(a) + words(b),
    decreases b.len(),
{
    let s = a + seq![c] + b;
    if b.len() == 0 {
        assert(s.drop_last() =~= a);
        assert(words(b) == Seq::<Seq<char>>::empty());
        assert(words(a) + words(b) =~= words(a));
    } else {
        let b2 = b.drop_last();
        let x = b.last();
        lemma_words_split_at_ws(a, c, b2);
        assert(s.drop_last() =~= a + seq![c] + b2);
        assert(s.last() == x);
        let wa = words(a);
        let wb = words(b2);
        if is_ws(x) {
        } else if b.len() > 1 && !is_ws(b[b.len() - 2]) {
            assert(s[s.len() - 2] == b[b.len() - 2]);
            assert(b2.last() == b[b.len() - 2]);
            lemma_words_nonempty(b2);
            assert((wa + wb).update((wa + wb).len() - 1, (wa + wb).last().push(x)) =~= wa + wb.update(
                wb.len() - 1,
                wb.last().push(x),
            ));
        } else {
            if b.len() > 1 {
                assert(s[s.len() - 2] == b[b.len() - 2]);
            } else {
                assert(s[s.len() - 2] == c);
            }
            assert((wa + wb).push(seq![x]) =~= wa + wb.push(seq![x]));
        }
    }
}

/// The ranges in `v` that `rs` stands for are `pieces`.
pub open spec fn ranges_are(v: Seq<char>, rs: Seq<(usize, usize)>, pieces: Seq<Seq<char>>) -> bool {
    &&& rs.len() == pieces.len()
    &&& forall|k: int|
        0 <= k < rs.len() ==> {
            &&& (#[trigger] rs[k]).0 <= rs[k].1 <= v.len()
            &&& v.subrange(rs[k].0 as int, rs[k].1 as int) == pieces[k]
        }
}

pub proof fn lemma_split_nonempty(s: Seq<char>, c: char)
    ensures
        split_on(s, c).len() >= 1,
    decreases s.len(),
{
    if s.len() > 0 {
        lemma_split_nonempty(s.drop_last(), c);
    }
}

/// Text without the separator is one piece.
pub proof fn lemma_split_no_sep(s: Seq<char>, c: char)
    requires
        !s.contains(c),
    ensures
        split_on(s, c) == seq![s],
    decreases s.len(),
{
    if s.len() > 0 {
        let t = s.drop_last();
        assert(s.last() == s[s.len() - 1]);
        assert(!t.contains(c)) by {
            if t.contains(c) {
                let j = choose|j: int| 0 <= j < t.len() && t[j] == c;
                assert(s[j] == c);
            }
        }
        lemma_split_no_sep(t, c);
        assert(t.push(s.last()) =~= s);
        assert(split_on(s, c) =~= seq![s]);
    } else {
        assert(s =~= Seq::<char>::empty());
    }
}

/// Each separator ends a piece: the pieces of `a`, the separator and `b` are
/// the pieces of `a` followed by those of `b`.
pub proof fn lemma_split_at_sep(a: Seq<char>, c: char, b: Seq<char>)
    ensures
        split_on(a + seq![c] + b, c) == split_on(a, c) + split_on(b, c),
    decreases b.len(),
{
    let s = a + seq![c] + b;
    if b.len() == 0 {
        assert(s.drop_last() =~= a);
        assert(split_on(a, c).push(Seq::<char>::empty()) =~= split_on(a, c) + split_on(b, c));
    } else {
        let b2 = b.drop_last();
        let x = b.last();
        lemma_split_at_sep(a, c, b2);
        assert(s.drop_last() =~= a + seq![c] + b2);
        assert(s.last() == x);
        let pa = split_on(a, c);
        let pb = split_on(b2, c);
        lemma_split_nonempty(b2, c);
        if x == c {
            assert((pa + pb).push(Seq::<char>::empty()) =~= pa + pb.push(Seq::<char>::empty()));
        } else {
            assert((pa + pb).update((pa + pb).len() - 1, (pa + pb).last().push(x)) =~= pa + pb.update(
                pb.len() - 1,
                pb.last().push(x),
            ));
        }
    }
}

/// The pieces of `v[a..b]` split on `c`.
pub fn split_ranges(v: &[char], a: usize, b: usize, c: char) -> (r: Vec<(usize, usize)>)
    requires
        a <= b <= v@.len(),
    ensures
        ranges_are(v@, r@, split_on(v@.subrange(a as int, b as int), c)),
        forall|k: int| 0 <= k < r@.len() ==> a <= (#[trigger] r@[k]).0 && r@[k].1 <= b,
{
    let mut r: Vec<(usize, usize)> = Vec::new();
    let mut start = a;
    let mut i = a;
    assert(v@.subrange(a as int, a as int) =~= Seq::<char>::empty());
    while i < b
        invariant
            a <= start <= i <= b <= v@.len(),
            r@.len() + 1 == split_on(v@.subrange(a as int, i as int), c).len(),
            forall|k: int|
                0 <= k < r@.len() ==> {
                    &&& a <= (#[trigger] r@[k]).0 <= r@[k].1 <= b
                    &&& v@.subrange(r@[k].0 as int, r@[k].1 as int) == split_on(
                        v@.subrange(a as int, i as int),
                        c,
                    )[k]
                },
            split_on(v@.subrange(a as int, i as int), c).last() == v@.subrange(
                start as int,
                i as int,
            ),
        decreases b - i,
    {
        let ghost t = v@.subrange(a as int, i as int);
        let ghost t2 = v@.subrange(a as int, i + 1);
        assert(t2.drop_last() =~= t);
        assert(t2.last() == v@[i as int]);
        proof {
            lemma_split_nonempty(t, c);
        }
        if v[i] == c {
            r.push((start, i));
            start = i + 1;
            assert(v@.subrange(start as int, i + 1) =~= Seq::<char>::empty());
        } else {
            assert(v@.subrange(start as int, i + 1) =~= v@.subrange(start as int, i as int).push(
                v@[i as int],
            ));
        }
        i = i + 1;
    }
    r.push((start, b));
    proof {
        lemma_split_nonempty(v@.subrange(a as int, b as int), c);
    }
    r
}

/// The lines of `v`.
pub fn line_ranges(v: &[char]) -> (r: Vec<(usize, usize)>)
    ensures
        ranges_are(v@, r@, lines(v@)),
{
    let p = split_ranges(v, 0, v.len(), '\n');
    let ghost ps = split_on(v@.subrange(0, v@.len() as int), '\n');
    assert(v@.subrange(0, v@.len() as int) =~= v@);
    proof {
        lemma_split_nonempty(v@, '\n');
    }
    let ghost body = ps.drop_last().map_values(|l: Seq<char>| strip_cr(l));
    let mut r: Vec<(usize, usize)> = Vec::new();
    let n = p.len() - 1;
    let mut k: usize = 0;
    while k < n
        invariant
            n + 1 == p@.len() == ps.len(),
            ranges_are(v@, p@, ps),
            body == ps.drop_last().map_values(|l: Seq<char>| strip_cr(l)),
            0 <= k <= n,
            ranges_are(v@, r@, body.take(k as int)),
        decreases n - k,
    {
        let (s, e) = p[k];
        assert(ps[k as int] == v@.subrange(s as int, e as int));
        if e > s && v[e - 1] == '\r' {
            assert(v@.subrange(s as int, e - 1) =~= v@.subrange(s as int, e as int).drop_last());
            r.push((s, e - 1));
        } else {
            r.push((s, e));
        }
        k = k + 1;
        assert(body.take(k as int) =~= body.take(k - 1).push(body[k - 1]));
    }
    assert(body.take(n as int) =~= body);
    let (s, e) = p[n];
    if e > s {
        r.push((s, e));
        assert(body.push(ps.last()) =~= lines(v@));
    }
    r
}

/// The words of `v[a..b]`.
pub fn word_ranges(v: &[char], a: usize, b: usize) -> (r: Vec<(usize, usize)>)
    requires
        a <= b <= v@.len(),
    ensures
        ranges_are(v@, r@, words(v@.subrange(a as int, b as int))),
{
    let mut r: Vec<(usize, usize)> = Vec::new();
    let mut i = a;
    assert(v@.subrange(a as int, a as int) =~= Seq::<char>::empty());
    while i < b
        invariant
            a <= i <= b <= v@.len(),
            ranges_are(v@, r@, words(v@.subrange(a as int, i as int))),
            i > a && !is_ws(v@[i - 1]) ==> r@.len() > 0 && r@.last().1 == i,
        decreases b - i,
    {
        let ghost t = v@.subrange(a as int, i as int);
        let ghost t2 = v@.subrange(a as int, i + 1);
        assert(t2.drop_last() =~= t);
        assert(t2.last() == v@[i as int]);
        let ghost w = words(t);
        if crate::text::char_is_ws(v[i]) {
        } else if i > a && !crate::text::char_is_ws(v[i - 1]) {
            assert(t2[t2.len() - 2] == v@[i - 1]);
            let last = r.len() - 1;
            let (s, _) = r[last];
            assert(v@.subrange(s as int, i + 1) =~= v@.subrange(s as int, i as int).push(
                v@[i as int],
            ));
            r.set(last, (s, i + 1));
            assert(words(t2) == w.update(w.len() - 1, w.last().push(v@[i as int])));
        } else {
            assert(i > a ==> t2[t2.len() - 2] == v@[i - 1]);
            assert(v@.subrange(i as int, i + 1) =~= seq![v@[i as int]]);
            r.push((i, i + 1));
        }
        i = i + 1;
    }
    r
}

} // verus!
